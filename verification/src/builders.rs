//! Which constraint builders a run needs, and in which order: starting from
//! the topline constraints, the builders they require (directly or not) are
//! discovered breadth first, and then ordered so that every builder comes
//! after the builders it requires.
use vstd::prelude::*;
use crate::access::strs_view;
use crate::access::contains_str;
use crate::strings::str_eq;
use crate::linked::{name_set_items, name_set_to_vec};
use linked_hash_set::LinkedHashSet;
use std::collections::hash_map::RandomState;

verus! {

/// A constraint builder: the name of its constraint and the names of the
/// constraints it requires.
pub struct BuilderInfo {
    pub name: String,
    pub required: Vec<String>,
}

/// A builder by value.
pub type BuilderView = (Seq<char>, Seq<Seq<char>>);

pub open spec fn builder_views(bs: Seq<BuilderInfo>) -> Seq<BuilderView> {
    bs.map_values(|b: BuilderInfo| (b.name@, strs_view(b.required@)))
}

/// Position `i` holds the last builder named `n` (when several builders
/// share a name, the last one counts).
pub open spec fn last_builder(bs: Seq<BuilderView>, n: Seq<char>, i: int) -> bool {
    &&& 0 <= i < bs.len()
    &&& bs[i].0 == n
    &&& forall|j: int| i < j < bs.len() ==> (#[trigger] bs[j]).0 != n
}

/// The position of the builder named `n`, if any.
pub open spec fn find_builder(bs: Seq<BuilderView>, n: Seq<char>) -> Option<int> {
    if exists|i: int| last_builder(bs, n, i) {
        Some(choose|i: int| last_builder(bs, n, i))
    } else {
        None
    }
}

/// The names that the builder named `n` requires (none when there is no
/// such builder).
pub open spec fn requirements(bs: Seq<BuilderView>, n: Seq<char>) -> Seq<Seq<char>> {
    match find_builder(bs, n) {
        Some(i) => bs[i].1,
        None => Seq::empty(),
    }
}

/// The state of the discovery: the queue of names (those before `head`
/// are done), the names seen as requirements, the names taken in the
/// current search, the names in the order they were first processed, and
/// whether no error occurred.
pub struct Discovery {
    pub queue: Seq<Seq<char>>,
    pub head: int,
    pub visited: Set<Seq<char>>,
    pub removed: Set<Seq<char>>,
    pub order: Seq<Seq<char>>,
    pub ok: bool,
}

/// Meets the requirement `req`: a name seen before is skipped; a new one is
/// queued, unless it has no builder or is the name the search started from
/// (an error).
pub open spec fn visit(bs: Seq<BuilderView>, req: Seq<char>, st: Discovery) -> Discovery {
    if st.visited.contains(req) {
        st
    } else if find_builder(bs, req) is None || st.removed.contains(req) {
        Discovery { ok: false, ..st }
    } else {
        Discovery {
            queue: st.queue.push(req),
            visited: st.visited.insert(req),
            removed: st.removed.insert(req),
            ..st
        }
    }
}

/// Meets the requirements in order.
pub open spec fn enqueue(bs: Seq<BuilderView>, reqs: Seq<Seq<char>>, st: Discovery) -> Discovery
    decreases reqs.len(),
{
    if reqs.len() == 0 {
        st
    } else {
        enqueue(bs, reqs.drop_first(), visit(bs, reqs[0], st))
    }
}

/// Processes the next name of the queue.
pub open spec fn pop(bs: Seq<BuilderView>, st: Discovery) -> Discovery {
    let key = st.queue[st.head];
    let st1 = Discovery {
        head: st.head + 1,
        order: if st.order.contains(key) {
            st.order
        } else {
            st.order.push(key)
        },
        ..st
    };
    enqueue(bs, requirements(bs, key), st1)
}

/// Processes the queue until it is empty (at most `fuel` names).
pub open spec fn run_queue(bs: Seq<BuilderView>, st: Discovery, fuel: nat) -> Discovery
    decreases fuel,
{
    if fuel == 0 || st.head >= st.queue.len() {
        st
    } else {
        run_queue(bs, pop(bs, st), (fuel - 1) as nat)
    }
}

/// A breadth-first search from `start`, with a fresh set of taken names; a
/// start without builder is an error.
pub open spec fn search(bs: Seq<BuilderView>, start: Seq<char>, st: Discovery) -> Discovery {
    if find_builder(bs, start) is None {
        Discovery { ok: false, ..st }
    } else {
        run_queue(bs, Discovery { queue: seq![start], head: 0, removed: set![start], ..st }, bs.len())
    }
}

/// The searches from each topline name in order.
pub open spec fn discover(bs: Seq<BuilderView>, tops: Seq<Seq<char>>) -> Discovery
    decreases tops.len(),
{
    if tops.len() == 0 {
        Discovery {
            queue: Seq::empty(),
            head: 0,
            visited: Set::empty(),
            removed: Set::empty(),
            order: Seq::empty(),
            ok: true,
        }
    } else {
        search(bs, tops.last(), discover(bs, tops.drop_last()))
    }
}

/// The builder of `d` can come once all it requires has come.
pub open spec fn sortable(bs: Seq<BuilderView>, d: Seq<char>, sorted: Seq<Seq<char>>) -> bool {
    forall|k: int| 0 <= k < requirements(bs, d).len() ==> sorted.contains(#[trigger] requirements(bs, d)[k])
}

/// The first name of `ds` at or after `i` that is not sorted yet and can
/// come next.
pub open spec fn first_sortable(bs: Seq<BuilderView>, ds: Seq<Seq<char>>, sorted: Seq<Seq<char>>, i: int) -> Option<int>
    decreases ds.len() - i,
{
    if i < 0 || i >= ds.len() {
        None
    } else if !sorted.contains(ds[i]) && sortable(bs, ds[i], sorted) {
        Some(i)
    } else {
        first_sortable(bs, ds, sorted, i + 1)
    }
}

/// `k` more names of `ds` put in order after `sorted`, each time the first
/// that can come next; `None` when none can (the requirements form a cycle).
pub open spec fn sort_from(bs: Seq<BuilderView>, ds: Seq<Seq<char>>, sorted: Seq<Seq<char>>, k: nat) -> Option<Seq<Seq<char>>>
    decreases k,
{
    if k == 0 {
        Some(sorted)
    } else {
        match first_sortable(bs, ds, sorted, 0) {
            None => None,
            Some(i) => sort_from(bs, ds, sorted.push(ds[i]), (k - 1) as nat),
        }
    }
}

proof fn lemma_first_sortable(bs: Seq<BuilderView>, ds: Seq<Seq<char>>, sorted: Seq<Seq<char>>, i: int)
    requires
        0 <= i <= ds.len(),
    ensures
        match first_sortable(bs, ds, sorted, i) {
            Some(p) => i <= p < ds.len() && !sorted.contains(ds[p]) && sortable(bs, ds[p], sorted)
                && forall|q: int| i <= q < p ==> !(!sorted.contains(#[trigger] ds[q]) && sortable(bs, ds[q], sorted)),
            None => forall|q: int| i <= q < ds.len() ==> !(!sorted.contains(#[trigger] ds[q]) && sortable(bs, ds[q], sorted)),
        },
    decreases ds.len() - i,
{
    if i < ds.len() {
        lemma_first_sortable(bs, ds, sorted, i + 1);
    }
}

/// `x` occurs in `r` before position `p`.
pub open spec fn occurs_before(r: Seq<Seq<char>>, x: Seq<char>, p: int) -> bool {
    exists|q: int| 0 <= q < p && r[q] == x
}

/// Every name of `r` comes after every name its builder requires.
pub open spec fn after_requirements(bs: Seq<BuilderView>, r: Seq<Seq<char>>) -> bool {
    forall|p: int, m: int| 0 <= p < r.len() && 0 <= m < requirements(bs, r[p]).len()
        ==> occurs_before(r, #[trigger] requirements(bs, r[p])[m], p)
}

/// In an order built by `sort_from`, every name comes after every name its
/// builder requires.
pub proof fn lemma_sorted_after_requirements(bs: Seq<BuilderView>, ds: Seq<Seq<char>>, sorted: Seq<Seq<char>>, k: nat)
    requires
        after_requirements(bs, sorted),
        sort_from(bs, ds, sorted, k) is Some,
    ensures
        after_requirements(bs, sort_from(bs, ds, sorted, k)->0),
    decreases k,
{
    if k > 0 {
        lemma_first_sortable(bs, ds, sorted, 0);
        let i = first_sortable(bs, ds, sorted, 0)->0;
        let s2 = sorted.push(ds[i]);
        assert forall|p: int, m: int| 0 <= p < s2.len() && 0 <= m < requirements(bs, s2[p]).len()
            implies occurs_before(s2, #[trigger] requirements(bs, s2[p])[m], p) by {
            if p < sorted.len() {
                assert(s2[p] == sorted[p]);
                assert(occurs_before(sorted, requirements(bs, sorted[p])[m], p));
                let q = choose|q: int| 0 <= q < p && sorted[q] == requirements(bs, sorted[p])[m];
                assert(s2[q] == sorted[q]);
            } else {
                assert(s2[p] == ds[i]);
                assert(sorted.contains(requirements(bs, ds[i])[m]));
                let q = choose|q: int| 0 <= q < sorted.len() && sorted[q] == requirements(bs, ds[i])[m];
                assert(s2[q] == sorted[q]);
            }
        }
        lemma_sorted_after_requirements(bs, ds, s2, (k - 1) as nat);
    }
}

proof fn lemma_enqueue_mono(bs: Seq<BuilderView>, reqs: Seq<Seq<char>>, st: Discovery)
    requires
        !st.ok,
    ensures
        !enqueue(bs, reqs, st).ok,
    decreases reqs.len(),
{
    if reqs.len() > 0 {
        lemma_enqueue_mono(bs, reqs.drop_first(), visit(bs, reqs[0], st));
    }
}

proof fn lemma_run_mono(bs: Seq<BuilderView>, st: Discovery, fuel: nat)
    requires
        !st.ok,
    ensures
        !run_queue(bs, st, fuel).ok,
    decreases fuel,
{
    if fuel > 0 && st.head < st.queue.len() {
        let key = st.queue[st.head];
        let st1 = Discovery {
            head: st.head + 1,
            order: if st.order.contains(key) {
                st.order
            } else {
                st.order.push(key)
            },
            ..st
        };
        lemma_enqueue_mono(bs, requirements(bs, key), st1);
        lemma_run_mono(bs, pop(bs, st), (fuel - 1) as nat);
    }
}

proof fn lemma_search_mono(bs: Seq<BuilderView>, start: Seq<char>, st: Discovery)
    requires
        !st.ok,
    ensures
        !search(bs, start, st).ok,
{
    if find_builder(bs, start) is Some {
        lemma_run_mono(bs, Discovery { queue: seq![start], head: 0, removed: set![start], ..st }, bs.len());
    }
}

/// An error in the first searches is an error of the whole discovery.
proof fn lemma_discover_prefix_ok(bs: Seq<BuilderView>, tops: Seq<Seq<char>>, i: int)
    requires
        0 <= i <= tops.len(),
        discover(bs, tops).ok,
    ensures
        discover(bs, tops.take(i)).ok,
    decreases tops.len() - i,
{
    if i < tops.len() {
        lemma_discover_prefix_ok(bs, tops, i + 1);
        let t = tops.take(i + 1);
        assert(t.drop_last() =~= tops.take(i));
        if !discover(bs, tops.take(i)).ok {
            lemma_search_mono(bs, t.last(), discover(bs, tops.take(i)));
        }
    } else {
        assert(tops.take(i) =~= tops);
    }
}

/// The position of the builder named `n` (the last one of that name).
fn find_last_builder(bs: &Vec<BuilderInfo>, n: &String) -> (r: Option<usize>)
    ensures
        match r {
            Some(i) => find_builder(builder_views(bs@), n@) == Some(i as int),
            None => find_builder(builder_views(bs@), n@) is None,
        },
{
    let ghost bv = builder_views(bs@);
    let mut i: usize = bs.len();
    while i > 0
        invariant
            i <= bs@.len(),
            bv == builder_views(bs@),
            forall|j: int| i <= j < bs@.len() ==> (#[trigger] bv[j]).0 != n@,
        decreases i,
    {
        let k = i - 1;
        if str_eq(bs[k].name.as_str(), n.as_str()) {
            proof {
                assert(bv[k as int].0 == n@);
                assert(last_builder(bv, n@, k as int));
                let c = choose|c: int| last_builder(bv, n@, c);
                if c < k {
                    assert(bv[k as int].0 != n@);
                } else if c > k {
                    assert(bv[c].0 != n@);
                }
            }
            return Some(k);
        }
        proof {
            assert(bv[k as int].0 != n@);
        }
        i = k;
    }
    proof {
        if exists|c: int| last_builder(bv, n@, c) {
            let c = choose|c: int| last_builder(bv, n@, c);
            assert(bv[c].0 != n@);
        }
    }
    None
}

/// The number of flags that are set.
pub open spec fn count_true(s: Seq<bool>) -> nat
    decreases s.len(),
{
    if s.len() == 0 {
        0
    } else {
        count_true(s.drop_last()) + if s.last() { 1nat } else { 0nat }
    }
}

proof fn lemma_count_true_clear(s: Seq<bool>, i: int)
    requires
        0 <= i < s.len(),
        s[i],
    ensures
        count_true(s.update(i, false)) + 1 == count_true(s),
    decreases s.len(),
{
    let t = s.update(i, false);
    if i < s.len() - 1 {
        lemma_count_true_clear(s.drop_last(), i);
        assert(t.drop_last() =~= s.drop_last().update(i, false));
    } else {
        assert(t.drop_last() =~= s.drop_last());
    }
}

proof fn lemma_count_true_le(s: Seq<bool>)
    ensures
        count_true(s) <= s.len(),
    decreases s.len(),
{
    if s.len() > 0 {
        lemma_count_true_le(s.drop_last());
    }
}

/// The names taken in the current search, by the flags of the builders
/// (a cleared flag at a name's last builder).
pub open spec fn removed_names(bs: Seq<BuilderView>, avail: Seq<bool>) -> Set<Seq<char>> {
    Set::new(|m: Seq<char>| exists|q: int| 0 <= q < avail.len() && !avail[q] && #[trigger] last_builder(bs, m, q))
}

/// The state of a search, by value.
pub open spec fn search_view(
    bs: Seq<BuilderView>,
    queue: Seq<String>,
    head: int,
    visited: Seq<String>,
    avail: Seq<bool>,
    order: Seq<String>,
) -> Discovery {
    Discovery {
        queue: strs_view(queue),
        head,
        visited: strs_view(visited).to_set(),
        removed: removed_names(bs, avail),
        order: strs_view(order),
        ok: true,
    }
}

proof fn lemma_last_builder_unique(bs: Seq<BuilderView>, m: Seq<char>, a: int, b: int)
    requires
        last_builder(bs, m, a),
        last_builder(bs, m, b),
    ensures
        a == b,
{
    if a < b {
        assert(bs[b].0 != m);
    } else if b < a {
        assert(bs[a].0 != m);
    }
}

proof fn lemma_removed_clear(bs: Seq<BuilderView>, avail: Seq<bool>, m: Seq<char>, i: int)
    requires
        avail.len() == bs.len(),
        last_builder(bs, m, i),
    ensures
        removed_names(bs, avail.update(i, false)) == removed_names(bs, avail).insert(m),
        removed_names(bs, avail).contains(m) == !avail[i],
{
    let a2 = avail.update(i, false);
    assert forall|x: Seq<char>| removed_names(bs, a2).contains(x) <==> removed_names(bs, avail).insert(m).contains(x) by {
        if removed_names(bs, a2).contains(x) {
            let q = choose|q: int| 0 <= q < a2.len() && !a2[q] && #[trigger] last_builder(bs, x, q);
            if q != i {
                assert(!avail[q]);
            } else {
                assert(x == m);
            }
        }
        if removed_names(bs, avail).contains(x) {
            let q = choose|q: int| 0 <= q < avail.len() && !avail[q] && #[trigger] last_builder(bs, x, q);
            assert(!a2[q]);
        }
        if x == m {
            assert(!a2[i] && last_builder(bs, m, i));
        }
    }
    assert(removed_names(bs, a2) =~= removed_names(bs, avail).insert(m));
    if removed_names(bs, avail).contains(m) {
        let q = choose|q: int| 0 <= q < avail.len() && !avail[q] && #[trigger] last_builder(bs, m, q);
        lemma_last_builder_unique(bs, m, q, i);
    }
    if !avail[i] {
        assert(last_builder(bs, m, i));
    }
}

/// One search, from the name `start`, continuing `before` (see `search`).
fn search_from(
    bs: &Vec<BuilderInfo>,
    start: &String,
    visited: &mut Vec<String>,
    order: &mut Vec<String>,
    Ghost(before): Ghost<Discovery>,
)
    requires
        strs_view(old(visited)@).to_set() == before.visited,
        strs_view(old(order)@) == before.order,
        before.ok,
        search(builder_views(bs@), start@, before).ok,
    ensures
        strs_view(final(visited)@).to_set() == search(builder_views(bs@), start@, before).visited,
        strs_view(final(order)@) == search(builder_views(bs@), start@, before).order,
{
    let ghost bv = builder_views(bs@);
    let ghost result = search(bv, start@, before);
    let n = bs.len();
    let sidx = match find_last_builder(bs, start) {
        Some(k) => k,
        None => {
            return;
        },
    };
    let mut avail: Vec<bool> = Vec::new();
    let mut z: usize = 0;
    while z < n
        invariant
            z <= n,
            avail@.len() == z,
            forall|q: int| 0 <= q < z ==> avail@[q],
        decreases n - z,
    {
        avail.push(true);
        z = z + 1;
    }
    proof {
        lemma_count_true_all(avail@);
        lemma_count_true_clear(avail@, sidx as int);
        assert(last_builder(bv, start@, sidx as int));
        lemma_removed_clear(bv, avail@, start@, sidx as int);
        assert(removed_names(bv, avail@) =~= Set::<Seq<char>>::empty()) by {
            assert forall|x: Seq<char>| !removed_names(bv, avail@).contains(x) by {
                if removed_names(bv, avail@).contains(x) {
                    let q = choose|q: int| 0 <= q < avail@.len() && !avail@[q] && #[trigger] last_builder(bv, x, q);
                }
            }
        }
    }
    avail.set(sidx, false);
    let mut queue: Vec<String> = Vec::new();
    queue.push(start.clone());
    let mut head: usize = 0;
    proof {
        assert(strs_view(queue@) =~= seq![start@]);
        assert(removed_names(bv, avail@) =~= set![start@]);
        let st0 = Discovery { queue: seq![start@], head: 0, removed: set![start@], ..before };
        assert(search_view(bv, queue@, 0, visited@, avail@, order@) == st0);
    }
    while head < queue.len()
        invariant
            bv == builder_views(bs@),
            n == bs@.len(),
            avail@.len() == n,
            queue@.len() + count_true(avail@) == n,
            head <= queue@.len(),
            result.ok,
            result == run_queue(bv, search_view(bv, queue@, head as int, visited@, avail@, order@), (n - head) as nat),
        decreases n - head,
    {
        let ghost cur = search_view(bv, queue@, head as int, visited@, avail@, order@);
        let key = queue[head].clone();
        head = head + 1;
        if !contains_str(order, &key) {
            order.push(key.clone());
        }
        let empty: Vec<String> = Vec::new();
        let kidx = find_last_builder(bs, &key);
        let reqs: &Vec<String> = match kidx {
            Some(k) => &bs[k].required,
            None => &empty,
        };
        let ghost rv = strs_view(reqs@);
        proof {
            lemma_count_true_le(avail@);
            assert(rv == requirements(bv, key@));
            assert(strs_view(queue@)[head - 1] == key@);
            assert(strs_view(order@) == (if cur.order.contains(key@) { cur.order } else { cur.order.push(key@) })) by {
                if !cur.order.contains(key@) {
                    assert(strs_view(order@) =~= cur.order.push(key@));
                }
            }
            assert(result == run_queue(bv, pop(bv, cur), (n - head) as nat));
            assert(rv.skip(0) =~= rv);
        }
        let mut j: usize = 0;
        while j < reqs.len()
            invariant
                bv == builder_views(bs@),
                n == bs@.len(),
                rv == strs_view(reqs@),
                j <= reqs@.len(),
                avail@.len() == n,
                queue@.len() + count_true(avail@) == n,
                head <= queue@.len(),
                result.ok,
                result == run_queue(bv, enqueue(bv, rv.skip(j as int), search_view(bv, queue@, head as int, visited@, avail@, order@)), (n - head) as nat),
            decreases reqs@.len() - j,
        {
            let req = &reqs[j];
            let ghost s1 = search_view(bv, queue@, head as int, visited@, avail@, order@);
            proof {
                assert(rv.skip(j as int)[0] == req@);
                assert(rv.skip(j as int).drop_first() =~= rv.skip(j as int + 1));
            }
            if !contains_str(visited, req) {
                proof {
                    assert(!s1.visited.contains(req@));
                }
                let ri = match find_last_builder(bs, req) {
                    Some(x) => x,
                    None => {
                        proof {
                            lemma_enqueue_mono(bv, rv.skip(j as int + 1), visit(bv, req@, s1));
                            lemma_run_mono(bv, enqueue(bv, rv.skip(j as int + 1), visit(bv, req@, s1)), (n - head) as nat);
                        }
                        return;
                    },
                };
                proof {
                    assert(last_builder(bv, req@, ri as int));
                    lemma_removed_clear(bv, avail@, req@, ri as int);
                }
                if !avail[ri] {
                    proof {
                        lemma_enqueue_mono(bv, rv.skip(j as int + 1), visit(bv, req@, s1));
                        lemma_run_mono(bv, enqueue(bv, rv.skip(j as int + 1), visit(bv, req@, s1)), (n - head) as nat);
                    }
                    return;
                }
                proof {
                    lemma_count_true_clear(avail@, ri as int);
                }
                avail.set(ri, false);
                queue.push(req.clone());
                let ghost v0 = visited@;
                visited.push(req.clone());
                proof {
                    assert(strs_view(visited@) =~= strs_view(v0).push(req@));
                    assert(strs_view(visited@).to_set() =~= strs_view(v0).to_set().insert(req@)) by {
                        assert forall|x: Seq<char>| strs_view(visited@).contains(x) <==> strs_view(v0).contains(x) || x == req@ by {
                            if strs_view(visited@).contains(x) {
                                let k = choose|k: int| 0 <= k < strs_view(visited@).len() && strs_view(visited@)[k] == x;
                                if k < v0.len() {
                                    assert(strs_view(v0)[k] == x);
                                }
                            }
                            if strs_view(v0).contains(x) {
                                let k = choose|k: int| 0 <= k < strs_view(v0).len() && strs_view(v0)[k] == x;
                                assert(strs_view(visited@)[k] == x);
                            }
                            assert(strs_view(visited@)[v0.len() as int] == req@);
                        }
                    }
                    assert(strs_view(queue@) =~= s1.queue.push(req@));
                    assert(search_view(bv, queue@, head as int, visited@, avail@, order@) == visit(bv, req@, s1));
                }
            } else {
                proof {
                    assert(s1.visited.contains(req@));
                }
            }
            j = j + 1;
        }
        proof {
            assert(rv.skip(j as int).len() == 0);
        }
    }
    proof {
        assert(run_queue(bv, search_view(bv, queue@, head as int, visited@, avail@, order@), (n - head) as nat)
            == search_view(bv, queue@, head as int, visited@, avail@, order@));
    }
}

/// The names in the order in which the searches from the topline names
/// first process them (see `discover`). Where `discover` records an error
/// the run cannot go on; those inputs are excluded.
pub fn discover_builders(bs: &Vec<BuilderInfo>, tops: &Vec<String>) -> (r: Vec<String>)
    requires
        discover(builder_views(bs@), strs_view(tops@)).ok,
    ensures
        strs_view(r@) == discover(builder_views(bs@), strs_view(tops@)).order,
{
    let ghost bv = builder_views(bs@);
    let ghost tv = strs_view(tops@);
    let mut visited: Vec<String> = Vec::new();
    let mut order: Vec<String> = Vec::new();
    let mut ti: usize = 0;
    proof {
        assert(tv.take(0) =~= Seq::<Seq<char>>::empty());
        assert(strs_view(visited@).to_set() =~= Set::<Seq<char>>::empty());
        assert(strs_view(order@) =~= Seq::<Seq<char>>::empty());
    }
    while ti < tops.len()
        invariant
            bv == builder_views(bs@),
            tv == strs_view(tops@),
            ti <= tops@.len(),
            discover(bv, tv).ok,
            strs_view(visited@).to_set() == discover(bv, tv.take(ti as int)).visited,
            strs_view(order@) == discover(bv, tv.take(ti as int)).order,
        decreases tops@.len() - ti,
    {
        proof {
            assert(tv.take(ti as int + 1).drop_last() =~= tv.take(ti as int));
            assert(tv.take(ti as int + 1).last() == tops@[ti as int]@);
            lemma_discover_prefix_ok(bv, tv, ti as int + 1);
            lemma_discover_prefix_ok(bv, tv, ti as int);
        }
        search_from(bs, &tops[ti], &mut visited, &mut order, Ghost(discover(bv, tv.take(ti as int))));
        ti = ti + 1;
    }
    proof {
        assert(tv.take(ti as int) =~= tv);
    }
    order
}

proof fn lemma_count_true_all(s: Seq<bool>)
    requires
        forall|q: int| 0 <= q < s.len() ==> s[q],
    ensures
        count_true(s) == s.len(),
    decreases s.len(),
{
    if s.len() > 0 {
        lemma_count_true_all(s.drop_last());
    }
}

/// Whether every requirement is among the sorted names.
fn all_sorted(reqs: &Vec<String>, sorted: &Vec<String>) -> (r: bool)
    ensures
        r == forall|k: int| 0 <= k < reqs@.len() ==> strs_view(sorted@).contains(#[trigger] strs_view(reqs@)[k]),
{
    let mut k: usize = 0;
    while k < reqs.len()
        invariant
            k <= reqs@.len(),
            forall|q: int| 0 <= q < k ==> strs_view(sorted@).contains(#[trigger] strs_view(reqs@)[q]),
        decreases reqs@.len() - k,
    {
        proof {
            assert(strs_view(reqs@)[k as int] == reqs@[k as int]@);
        }
        if !contains_str(sorted, &reqs[k]) {
            return false;
        }
        k = k + 1;
    }
    true
}

/// Orders the discovered names so that each comes after all it requires:
/// each time, the first name (in discovery order) that is not placed yet
/// and whose requirements all are (see `sort_from`). When no name can come
/// next (the requirements form a cycle) the run cannot go on; those inputs
/// are excluded.
pub fn sort_builders(bs: &Vec<BuilderInfo>, ds: &Vec<String>) -> (r: Vec<String>)
    requires
        sort_from(builder_views(bs@), strs_view(ds@), Seq::empty(), ds@.len() as nat) is Some,
    ensures
        strs_view(r@) == sort_from(builder_views(bs@), strs_view(ds@), Seq::empty(), ds@.len() as nat)->0,
{
    let ghost bv = builder_views(bs@);
    let ghost dv = strs_view(ds@);
    let ghost result = sort_from(bv, dv, Seq::empty(), ds@.len() as nat);
    let mut sorted: Vec<String> = Vec::new();
    let mut k: usize = 0;
    proof {
        assert(strs_view(sorted@) =~= Seq::<Seq<char>>::empty());
    }
    while k < ds.len()
        invariant
            bv == builder_views(bs@),
            dv == strs_view(ds@),
            k <= ds@.len(),
            result is Some,
            result == sort_from(bv, dv, strs_view(sorted@), (ds@.len() - k) as nat),
        decreases ds@.len() - k,
    {
        let ghost sv = strs_view(sorted@);
        let mut i: usize = 0;
        let mut pick: Option<usize> = None;
        while i < ds.len()
            invariant_except_break
                pick is None,
            invariant
                i <= ds@.len(),
                bv == builder_views(bs@),
                dv == strs_view(ds@),
                sv == strs_view(sorted@),
                first_sortable(bv, dv, sv, 0) == first_sortable(bv, dv, sv, i as int),
            ensures
                match pick {
                    Some(p) => first_sortable(bv, dv, sv, 0) == Some(p as int),
                    None => first_sortable(bv, dv, sv, 0) is None,
                },
            decreases ds@.len() - i,
        {
            let d = &ds[i];
            let empty: Vec<String> = Vec::new();
            let reqs: &Vec<String> = match find_last_builder(bs, d) {
                Some(x) => &bs[x].required,
                None => &empty,
            };
            proof {
                assert(strs_view(reqs@) == requirements(bv, d@));
                assert(dv[i as int] == d@);
            }
            let ok = !contains_str(&sorted, d) && all_sorted(reqs, &sorted);
            if ok {
                pick = Some(i);
                break;
            }
            i = i + 1;
        }
        proof {
            lemma_first_sortable(bv, dv, sv, 0);
        }
        match pick {
            Some(p) => {
                let ghost s0 = sorted@;
                sorted.push(ds[p].clone());
                proof {
                    assert(strs_view(sorted@) =~= strs_view(s0).push(dv[p as int]));
                }
            },
            None => {
                return Vec::new();
            },
        }
        k = k + 1;
    }
    sorted
}

fn clone_strs(v: &Vec<String>) -> (r: Vec<String>)
    ensures
        strs_view(r@) == strs_view(v@),
{
    let mut r: Vec<String> = Vec::new();
    let mut i: usize = 0;
    while i < v.len()
        invariant
            i <= v@.len(),
            strs_view(r@) == strs_view(v@.take(i as int)),
        decreases v@.len() - i,
    {
        let ghost r0 = r@;
        r.push(v[i].clone());
        i = i + 1;
        proof {
            assert(strs_view(r@) =~= strs_view(r0).push(v@[i - 1]@));
            assert(strs_view(v@.take(i as int)) =~= strs_view(v@.take(i - 1)).push(v@[i - 1]@));
        }
    }
    proof {
        assert(v@.take(i as int) =~= v@);
    }
    r
}

/// The builders that the topline constraints need, in an order in which
/// each comes after those it requires: discovered breadth first from the
/// topline names (see `discover`), then ordered (see `sort_from`); for each
/// name, its (last) builder. A missing builder, a requirement that leads
/// back to the name a search started from, and a cycle of requirements are
/// fatal errors; those inputs are excluded.
pub fn get_relevant_builders(bs: &Vec<BuilderInfo>, topline_constraint_names: &LinkedHashSet<String, RandomState>) -> (r: Vec<BuilderInfo>)
    requires
        discover(builder_views(bs@), name_set_items(*topline_constraint_names)).ok,
        sort_from(
            builder_views(bs@),
            discover(builder_views(bs@), name_set_items(*topline_constraint_names)).order,
            Seq::empty(),
            discover(builder_views(bs@), name_set_items(*topline_constraint_names)).order.len(),
        ) is Some,
    ensures
        ({
            let bv = builder_views(bs@);
            let ds = discover(bv, name_set_items(*topline_constraint_names)).order;
            let names = sort_from(bv, ds, Seq::empty(), ds.len())->0;
            &&& r@.len() == names.len()
            &&& forall|p: int| 0 <= p < r@.len() ==> builder_views(r@)[p] == bv[find_builder(bv, #[trigger] names[p])->0]
                && find_builder(bv, names[p]) is Some
            &&& after_requirements(bv, names)
        }),
{
    let ghost bv = builder_views(bs@);
    let tops = name_set_to_vec(topline_constraint_names);
    let ds = discover_builders(bs, &tops);
    proof {
        assert(strs_view(ds@).len() == ds@.len());
    }
    let names = sort_builders(bs, &ds);
    let ghost nv = strs_view(names@);
    proof {
        lemma_sorted_after_requirements(bv, strs_view(ds@), Seq::empty(), ds@.len() as nat);
        lemma_sort_from_names(bv, strs_view(ds@), Seq::empty(), ds@.len() as nat);
        lemma_discover_has_builders(bv, name_set_items(*topline_constraint_names));
        assert forall|q: int| 0 <= q < nv.len() implies find_builder(bv, #[trigger] nv[q]) is Some by {
            assert(!Seq::<Seq<char>>::empty().contains(nv[q]));
            let w = choose|w: int| 0 <= w < strs_view(ds@).len() && strs_view(ds@)[w] == nv[q];
            assert(discover(bv, name_set_items(*topline_constraint_names)).order[w] == nv[q]);
        }
    }
    let mut r: Vec<BuilderInfo> = Vec::new();
    let mut i: usize = 0;
    while i < names.len()
        invariant
            bv == builder_views(bs@),
            nv == strs_view(names@),
            i <= names@.len(),
            r@.len() == i,
            forall|q: int| 0 <= q < nv.len() ==> find_builder(bv, #[trigger] nv[q]) is Some,
            forall|p: int| 0 <= p < i ==> builder_views(r@)[p] == bv[find_builder(bv, #[trigger] nv[p])->0],
        decreases names@.len() - i,
    {
        proof {
            assert(nv[i as int] == names@[i as int]@);
        }
        match find_last_builder(bs, &names[i]) {
            Some(x) => {
                let b = BuilderInfo { name: bs[x].name.clone(), required: clone_strs(&bs[x].required) };
                let ghost r0 = r@;
                r.push(b);
                proof {
                    assert forall|p: int| 0 <= p < i + 1 implies builder_views(r@)[p] == bv[find_builder(bv, #[trigger] nv[p])->0] by {
                        if p < i {
                            assert(r@[p] == r0[p]);
                        }
                    }
                }
            },
            None => {
                return Vec::new();
            },
        }
        i = i + 1;
    }
    r
}

/// The names that `sort_from` places come from `ds`.
proof fn lemma_sort_from_names(bs: Seq<BuilderView>, ds: Seq<Seq<char>>, sorted: Seq<Seq<char>>, k: nat)
    requires
        sort_from(bs, ds, sorted, k) is Some,
    ensures
        forall|q: int| 0 <= q < sort_from(bs, ds, sorted, k)->0.len() ==> sorted.contains(#[trigger] sort_from(bs, ds, sorted, k)->0[q]) || ds.contains(sort_from(bs, ds, sorted, k)->0[q]),
    decreases k,
{
    if k > 0 {
        lemma_first_sortable(bs, ds, sorted, 0);
        let i = first_sortable(bs, ds, sorted, 0)->0;
        let s2 = sorted.push(ds[i]);
        lemma_sort_from_names(bs, ds, s2, (k - 1) as nat);
        let r = sort_from(bs, ds, sorted, k)->0;
        assert forall|q: int| 0 <= q < r.len() implies sorted.contains(#[trigger] r[q]) || ds.contains(r[q]) by {
            if s2.contains(r[q]) && !sorted.contains(r[q]) {
                let w = choose|w: int| 0 <= w < s2.len() && s2[w] == r[q];
                if w < sorted.len() {
                    assert(sorted[w] == r[q]);
                }
            }
        }
    }
}

/// Every name queued or processed has a builder.
pub open spec fn names_have_builders(bs: Seq<BuilderView>, st: Discovery) -> bool {
    &&& 0 <= st.head
    &&& forall|q: int| 0 <= q < st.queue.len() ==> find_builder(bs, #[trigger] st.queue[q]) is Some
    &&& forall|q: int| 0 <= q < st.order.len() ==> find_builder(bs, #[trigger] st.order[q]) is Some
}

proof fn lemma_enqueue_good(bs: Seq<BuilderView>, reqs: Seq<Seq<char>>, st: Discovery)
    requires
        names_have_builders(bs, st),
    ensures
        names_have_builders(bs, enqueue(bs, reqs, st)),
    decreases reqs.len(),
{
    if reqs.len() > 0 {
        let v = visit(bs, reqs[0], st);
        assert(names_have_builders(bs, v)) by {
            if !st.visited.contains(reqs[0]) && !(find_builder(bs, reqs[0]) is None || st.removed.contains(reqs[0])) {
                assert forall|q: int| 0 <= q < v.queue.len() implies find_builder(bs, #[trigger] v.queue[q]) is Some by {
                    if q < st.queue.len() {
                        assert(v.queue[q] == st.queue[q]);
                    }
                }
            }
        }
        lemma_enqueue_good(bs, reqs.drop_first(), v);
    }
}

proof fn lemma_run_good(bs: Seq<BuilderView>, st: Discovery, fuel: nat)
    requires
        names_have_builders(bs, st),
    ensures
        names_have_builders(bs, run_queue(bs, st, fuel)),
    decreases fuel,
{
    if fuel > 0 && st.head < st.queue.len() {
        let key = st.queue[st.head];
        let st1 = Discovery {
            head: st.head + 1,
            order: if st.order.contains(key) {
                st.order
            } else {
                st.order.push(key)
            },
            ..st
        };
        assert(names_have_builders(bs, st1)) by {
            assert forall|q: int| 0 <= q < st1.order.len() implies find_builder(bs, #[trigger] st1.order[q]) is Some by {
                if q < st.order.len() {
                    assert(st1.order[q] == st.order[q]);
                }
            }
        }
        lemma_enqueue_good(bs, requirements(bs, key), st1);
        lemma_run_good(bs, pop(bs, st), (fuel - 1) as nat);
    }
}

/// Every name that the discovery processes has a builder.
proof fn lemma_discover_has_builders(bs: Seq<BuilderView>, tops: Seq<Seq<char>>)
    ensures
        names_have_builders(bs, discover(bs, tops)),
    decreases tops.len(),
{
    if tops.len() > 0 {
        let st = discover(bs, tops.drop_last());
        lemma_discover_has_builders(bs, tops.drop_last());
        let start = tops.last();
        if find_builder(bs, start) is Some {
            let st0 = Discovery { queue: seq![start], head: 0, removed: set![start], ..st };
            assert(names_have_builders(bs, st0));
            lemma_run_good(bs, st0, bs.len());
        }
    }
}

} // verus!
