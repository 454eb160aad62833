//! The graph of constraint states before satisfaction, and the two passes
//! that prune it of dummy tasks: constraints that need no program and only
//! pass a dependency on, or have none left.
use vstd::prelude::*;
use crate::ancestor_record::TaskId;
use crate::constraint_state::{ConstraintState, ids_unique, ids_view};
use crate::linked::{id_set_contains, id_set_front, id_set_insert, id_set_len, id_set_remove};

verus! {

/// The id of a node, by value: a UUID and a type name.
pub type IdView = (u128, Seq<char>);

/// A node of the graph, by value: its id, whether it needs a program, and
/// its pending dependencies.
pub type NodeView = (IdView, bool, Seq<IdView>);

/// The id of a constraint state as the graph knows it: the constraint's
/// UUID and the type of its root.
pub open spec fn key_of(s: ConstraintState) -> IdView {
    (s.constraint_uuid, s.root_type@)
}

/// The node of a state.
pub open spec fn node_view(s: ConstraintState) -> NodeView {
    (key_of(s), s.requires_program, s.pending())
}

/// The graph of a sequence of states, by value.
pub open spec fn graph_view(g: Seq<ConstraintState>) -> Seq<NodeView> {
    g.map_values(|s: ConstraintState| node_view(s))
}

/// No two nodes share an id.
pub open spec fn keys_unique(g: Seq<NodeView>) -> bool {
    forall|i: int, j: int| 0 <= i < g.len() && 0 <= j < g.len() && i != j ==> g[i].0 != g[j].0
}

/// Every state is well formed.
pub open spec fn all_wf(g: Seq<ConstraintState>) -> bool {
    forall|i: int| 0 <= i < g.len() ==> #[trigger] g[i].wf()
}

/// Two states agree on everything but their pending dependencies.
pub open spec fn same_but_deps(a: ConstraintState, b: ConstraintState) -> bool {
    &&& a.dialect == b.dialect
    &&& a.key == b.key
    &&& a.name == b.name
    &&& a.satisfied == b.satisfied
    &&& a.satisfied_dependencies == b.satisfied_dependencies
    &&& a.constraint_uuid == b.constraint_uuid
    &&& a.requires_program == b.requires_program
    &&& a.root_uuid == b.root_uuid
    &&& a.root_type == b.root_type
    &&& a.root_tag == b.root_tag
    &&& a.ancestors == b.ancestors
    &&& a.preamble == b.preamble
    &&& a.call == b.call
    &&& a.params == b.params
    &&& a.task_name == b.task_name
    &&& a.context == b.context
}

/// `x` is a state of `g`, changed at most in its pending dependencies.
pub open spec fn has_origin(x: ConstraintState, g: Seq<ConstraintState>) -> bool {
    exists|j: int| 0 <= j < g.len() && same_but_deps(x, #[trigger] g[j])
}

/// Every state of `r` comes from a state of `g`, changed at most in its
/// pending dependencies.
pub open spec fn derived_from(r: Seq<ConstraintState>, g: Seq<ConstraintState>) -> bool {
    forall|i: int| 0 <= i < r.len() ==> has_origin(#[trigger] r[i], g)
}

/// The ids of `s` that are not in `rm`, in their order.
pub open spec fn retain_ids(s: Seq<IdView>, rm: Set<IdView>) -> Seq<IdView>
    decreases s.len(),
{
    if s.len() == 0 {
        s
    } else {
        let r = retain_ids(s.drop_last(), rm);
        if rm.contains(s.last()) {
            r
        } else {
            r.push(s.last())
        }
    }
}

/// The graph without the nodes whose id is in `rm`, and without `rm` among
/// the dependencies of the others.
pub open spec fn prune(g: Seq<NodeView>, rm: Set<IdView>) -> Seq<NodeView>
    decreases g.len(),
{
    if g.len() == 0 {
        g
    } else {
        let r = prune(g.drop_last(), rm);
        let n = g.last();
        if rm.contains(n.0) {
            r
        } else {
            r.push((n.0, n.1, retain_ids(n.2, rm)))
        }
    }
}

pub proof fn lemma_retain_ids(s: Seq<IdView>, rm: Set<IdView>)
    ensures
        forall|x: IdView| #[trigger] retain_ids(s, rm).contains(x) <==> (s.contains(x) && !rm.contains(x)),
        retain_ids(s, rm).len() <= s.len(),
        ids_unique(s) ==> ids_unique(retain_ids(s, rm)),
    decreases s.len(),
{
    if s.len() > 0 {
        let p = s.drop_last();
        lemma_retain_ids(p, rm);
        let r = retain_ids(p, rm);
        assert forall|x: IdView| #[trigger] retain_ids(s, rm).contains(x) <==> (s.contains(x) && !rm.contains(x)) by {
            if s.contains(x) {
                let i = choose|i: int| 0 <= i < s.len() && s[i] == x;
                if i < s.len() - 1 {
                    assert(p[i] == x);
                }
            }
            if p.contains(x) {
                let i = choose|i: int| 0 <= i < p.len() && p[i] == x;
                assert(s[i] == x);
            }
            if !rm.contains(s.last()) {
                assert(r.push(s.last())[r.len() as int] == s.last());
                if r.push(s.last()).contains(x) {
                    let i = choose|i: int| 0 <= i < r.len() + 1 && r.push(s.last())[i] == x;
                    if i < r.len() {
                        assert(r[i] == x);
                    }
                }
                if r.contains(x) {
                    let i = choose|i: int| 0 <= i < r.len() && r[i] == x;
                    assert(r.push(s.last())[i] == x);
                }
            }
        }
        if ids_unique(s) {
            assert(ids_unique(p)) by {
                assert forall|i: int, j: int| 0 <= i < p.len() && 0 <= j < p.len() && i != j implies p[i] != p[j] by {
                    assert(p[i] == s[i] && p[j] == s[j]);
                }
            }
            if !rm.contains(s.last()) {
                let t = r.push(s.last());
                assert(!p.contains(s.last())) by {
                    if p.contains(s.last()) {
                        let i = choose|i: int| 0 <= i < p.len() && p[i] == s.last();
                        assert(s[i] == s[s.len() - 1]);
                    }
                }
                assert(!r.contains(s.last()));
                assert forall|i: int, j: int| 0 <= i < t.len() && 0 <= j < t.len() && i != j implies t[i] != t[j] by {
                    if i == r.len() as int {
                        assert(t[j] == r[j]);
                    } else if j == r.len() as int {
                        assert(t[i] == r[i]);
                    } else {
                        assert(t[i] == r[i] && t[j] == r[j]);
                    }
                }
            }
        }
    }
}

/// Retaining twice is retaining once, without the union.
pub proof fn lemma_retain_ids_compose(s: Seq<IdView>, a: Set<IdView>, b: Set<IdView>)
    ensures
        retain_ids(retain_ids(s, a), b) == retain_ids(s, a.union(b)),
    decreases s.len(),
{
    if s.len() > 0 {
        lemma_retain_ids_compose(s.drop_last(), a, b);
        let r = retain_ids(s.drop_last(), a);
        if !a.contains(s.last()) {
            let t = r.push(s.last());
            assert(t.drop_last() =~= r);
        }
    }
}

/// Pruning twice is pruning once, by the union.
pub proof fn lemma_prune_compose(
    g: Seq<NodeView>,
    a: Set<IdView>,
    b: Set<IdView>,
)
    ensures
        prune(prune(g, a), b) == prune(g, a.union(b)),
    decreases g.len(),
{
    if g.len() > 0 {
        lemma_prune_compose(g.drop_last(), a, b);
        let r = prune(g.drop_last(), a);
        let n = g.last();
        if !a.contains(n.0) {
            let t = r.push((n.0, n.1, retain_ids(n.2, a)));
            assert(t.drop_last() =~= r);
            lemma_retain_ids_compose(n.2, a, b);
        }
    }
}

/// A pruned graph is no longer than the graph, and shorter when some id of
/// the graph is removed.
proof fn lemma_prune_len(g: Seq<NodeView>, rm: Set<IdView>)
    ensures
        prune(g, rm).len() <= g.len(),
        (exists|j: int| 0 <= j < g.len() && rm.contains(#[trigger] g[j].0)) ==> prune(g, rm).len() < g.len(),
    decreases g.len(),
{
    if g.len() > 0 {
        let p = g.drop_last();
        lemma_prune_len(p, rm);
        if exists|j: int| 0 <= j < g.len() && rm.contains(#[trigger] g[j].0) {
            let j = choose|j: int| 0 <= j < g.len() && rm.contains(#[trigger] g[j].0);
            if j < p.len() {
                assert(rm.contains(p[j].0));
            }
        }
    }
}

/// Each node of a pruned graph comes from a node of the graph whose id is
/// not removed, with its dependencies retained.
proof fn lemma_prune_sound(g: Seq<NodeView>, rm: Set<IdView>)
    ensures
        forall|i: int| 0 <= i < prune(g, rm).len() ==> exists|j: int| 0 <= j < g.len() && !rm.contains(g[j].0)
            && #[trigger] prune(g, rm)[i] == (g[j].0, g[j].1, retain_ids(g[j].2, rm)),
    decreases g.len(),
{
    if g.len() > 0 {
        let p = g.drop_last();
        lemma_prune_sound(p, rm);
        let r = prune(p, rm);
        let n = g.last();
        let t = prune(g, rm);
        assert forall|i: int| 0 <= i < t.len() implies exists|j: int| 0 <= j < g.len() && !rm.contains(g[j].0)
            && #[trigger] t[i] == (g[j].0, g[j].1, retain_ids(g[j].2, rm)) by {
            if i < r.len() {
                assert(t[i] == r[i]);
                let j = choose|j: int| 0 <= j < p.len() && !rm.contains(p[j].0) && r[i] == (p[j].0, p[j].1, retain_ids(p[j].2, rm));
                assert(g[j] == p[j]);
            } else {
                assert(g[g.len() - 1] == n);
            }
        }
    }
}

/// Each node of the graph whose id is not removed has its node in the
/// pruned graph.
proof fn lemma_prune_complete(g: Seq<NodeView>, rm: Set<IdView>)
    ensures
        forall|j: int| 0 <= j < g.len() && !rm.contains(g[j].0) ==> exists|i: int| 0 <= i < prune(g, rm).len()
            && #[trigger] prune(g, rm)[i] == (g[j].0, g[j].1, retain_ids(g[j].2, rm)),
    decreases g.len(),
{
    if g.len() > 0 {
        let p = g.drop_last();
        lemma_prune_complete(p, rm);
        let r = prune(p, rm);
        let n = g.last();
        let t = prune(g, rm);
        assert forall|j: int| 0 <= j < g.len() && !rm.contains(g[j].0) implies exists|i: int| 0 <= i < t.len()
            && #[trigger] t[i] == (g[j].0, g[j].1, retain_ids(g[j].2, rm)) by {
            if j < p.len() {
                assert(g[j] == p[j]);
                let i = choose|i: int| 0 <= i < r.len() && #[trigger] r[i] == (p[j].0, p[j].1, retain_ids(p[j].2, rm));
                assert(t[i] == r[i]);
            } else {
                assert(t[r.len() as int] == (n.0, n.1, retain_ids(n.2, rm)));
            }
        }
    }
}

/// Pruning keeps ids unique.
proof fn lemma_prune_unique(g: Seq<NodeView>, rm: Set<IdView>)
    requires
        keys_unique(g),
    ensures
        keys_unique(prune(g, rm)),
    decreases g.len(),
{
    if g.len() > 0 {
        let p = g.drop_last();
        assert(keys_unique(p)) by {
            assert forall|i: int, j: int| 0 <= i < p.len() && 0 <= j < p.len() && i != j implies p[i].0 != p[j].0 by {
                assert(p[i] == g[i] && p[j] == g[j]);
            }
        }
        lemma_prune_unique(p, rm);
        lemma_prune_sound(p, rm);
        let r = prune(p, rm);
        let n = g.last();
        let t = prune(g, rm);
        if !rm.contains(n.0) {
            assert forall|i: int, j: int| 0 <= i < t.len() && 0 <= j < t.len() && i != j implies t[i].0 != t[j].0 by {
                if i == r.len() as int && j < r.len() {
                    assert(t[j] == r[j]);
                    let jj = choose|jj: int| 0 <= jj < p.len() && !rm.contains(p[jj].0) && r[j] == (p[jj].0, p[jj].1, retain_ids(p[jj].2, rm));
                    assert(g[jj] == p[jj]);
                } else if j == r.len() as int && i < r.len() {
                    assert(t[i] == r[i]);
                    let ii = choose|ii: int| 0 <= ii < p.len() && !rm.contains(p[ii].0) && r[i] == (p[ii].0, p[ii].1, retain_ids(p[ii].2, rm));
                    assert(g[ii] == p[ii]);
                } else if i < r.len() && j < r.len() {
                    assert(t[i] == r[i] && t[j] == r[j]);
                }
            }
        }
    }
}

/// Each node of a pruned graph is a node of the graph whose id is not
/// removed, with its dependencies retained; no node is dropped that is not
/// removed; and ids stay unique.
pub proof fn lemma_prune_nodes(g: Seq<NodeView>, rm: Set<IdView>)
    ensures
        prune(g, rm).len() <= g.len(),
        forall|i: int| 0 <= i < prune(g, rm).len() ==> exists|j: int| 0 <= j < g.len() && !rm.contains(g[j].0)
            && #[trigger] prune(g, rm)[i] == (g[j].0, g[j].1, retain_ids(g[j].2, rm)),
        forall|j: int| 0 <= j < g.len() && !rm.contains(g[j].0) ==> exists|i: int| 0 <= i < prune(g, rm).len()
            && #[trigger] prune(g, rm)[i] == (g[j].0, g[j].1, retain_ids(g[j].2, rm)),
        (exists|j: int| 0 <= j < g.len() && rm.contains(#[trigger] g[j].0)) ==> prune(g, rm).len() < g.len(),
        keys_unique(g) ==> keys_unique(prune(g, rm)),
{
    lemma_prune_len(g, rm);
    lemma_prune_sound(g, rm);
    lemma_prune_complete(g, rm);
    let t = prune(g, rm);
    assert forall|i: int| 0 <= i < t.len() implies exists|j: int| 0 <= j < g.len() && !rm.contains(g[j].0)
        && #[trigger] t[i] == (g[j].0, g[j].1, retain_ids(g[j].2, rm)) by {
        let j = choose|j: int| 0 <= j < g.len() && !rm.contains(g[j].0) && t[i] == (g[j].0, g[j].1, retain_ids(g[j].2, rm));
        assert(0 <= j < g.len() && !rm.contains(g[j].0) && t[i] == (g[j].0, g[j].1, retain_ids(g[j].2, rm)));
    }
    if keys_unique(g) {
        lemma_prune_unique(g, rm);
    }
}

/// A dangling dummy task: one that needs no program and has no pending
/// dependency.
pub open spec fn is_dangling(n: NodeView) -> bool {
    n.2.len() == 0 && !n.1
}

/// The node `k` goes within `depth` rounds of removing dangling dummy tasks
/// from `g`: it needs no program, and each of its dependencies goes within
/// one round less.
pub open spec fn removable(g: Seq<NodeView>, k: IdView, depth: nat) -> bool
    decreases depth,
{
    if depth == 0 {
        false
    } else {
        exists|i: int|
            #![trigger g[i]]
            0 <= i < g.len() && g[i].0 == k && !g[i].1 && forall|j: int|
                0 <= j < g[i].2.len() ==> removable(g, #[trigger] g[i].2[j], (depth - 1) as nat)
    }
}

/// The ids that removing dangling dummy tasks takes out of `g`: those
/// removable within some number of rounds.
pub open spec fn dangling_closure(g: Seq<NodeView>) -> Set<IdView> {
    Set::new(|k: IdView| exists|d: nat| removable(g, k, d))
}

pub proof fn lemma_removable_mono(g: Seq<NodeView>, k: IdView, d: nat)
    requires
        removable(g, k, d),
    ensures
        removable(g, k, d + 1),
    decreases d,
{
    let i = choose|i: int|
        #![trigger g[i]]
        0 <= i < g.len() && g[i].0 == k && !g[i].1 && forall|j: int|
            0 <= j < g[i].2.len() ==> removable(g, #[trigger] g[i].2[j], (d - 1) as nat);
    assert forall|j: int| 0 <= j < g[i].2.len() implies removable(g, #[trigger] g[i].2[j], d) by {
        lemma_removable_mono(g, g[i].2[j], (d - 1) as nat);
    }
    assert(g[i].0 == k);
}

/// When nothing dangles in `g` pruned by `rset`, every id of the closure is
/// in `rset`.
proof fn lemma_closure_removed(g: Seq<NodeView>, rset: Set<IdView>, k: IdView, d: nat)
    requires
        forall|i: int| 0 <= i < prune(g, rset).len() ==> !is_dangling(#[trigger] prune(g, rset)[i]),
        removable(g, k, d),
    ensures
        rset.contains(k),
    decreases d,
{
    let i = choose|i: int|
        #![trigger g[i]]
        0 <= i < g.len() && g[i].0 == k && !g[i].1 && forall|j: int|
            0 <= j < g[i].2.len() ==> removable(g, #[trigger] g[i].2[j], (d - 1) as nat);
    assert forall|j: int| 0 <= j < g[i].2.len() implies rset.contains(#[trigger] g[i].2[j]) by {
        lemma_closure_removed(g, rset, g[i].2[j], (d - 1) as nat);
    }
    if !rset.contains(k) {
        lemma_prune_nodes(g, rset);
        lemma_retain_ids(g[i].2, rset);
        let r = retain_ids(g[i].2, rset);
        if r.len() > 0 {
            assert(r.contains(r[0]));
            let jj = choose|jj: int| 0 <= jj < g[i].2.len() && g[i].2[jj] == r[0];
            assert(rset.contains(g[i].2[jj]));
        }
        let p = choose|p: int| 0 <= p < prune(g, rset).len() && #[trigger] prune(g, rset)[p] == (g[i].0, g[i].1, retain_ids(g[i].2, rset));
        assert(is_dangling(prune(g, rset)[p]));
    }
}

/// The id of a state.
fn id_of(s: &ConstraintState) -> (r: TaskId)
    ensures
        r@ == key_of(*s),
{
    TaskId::new(s.constraint_uuid, s.root_type.clone())
}

fn contains_id(v: &Vec<TaskId>, x: &TaskId) -> (r: bool)
    ensures
        r == ids_view(v@).contains(x@),
{
    let mut i: usize = 0;
    while i < v.len()
        invariant
            i <= v@.len(),
            forall|j: int| 0 <= j < i ==> v@[j]@ != x@,
        decreases v@.len() - i,
    {
        if v[i].same_as(x) {
            assert(ids_view(v@)[i as int] == x@);
            return true;
        }
        i = i + 1;
    }
    proof {
        if ids_view(v@).contains(x@) {
            let j = choose|j: int| 0 <= j < ids_view(v@).len() && ids_view(v@)[j] == x@;
            assert(v@[j]@ == x@);
        }
    }
    false
}

/// Whether a state waits for `x`.
pub fn contains_pending(s: &ConstraintState, x: &TaskId) -> (r: bool)
    ensures
        r == s.pending().contains(x@),
{
    id_set_contains(&s.unsatisfied_dependencies, &(x.uuid, x.object_type.clone()))
}

/// Drops from the pending dependencies of a state those in `rm`.
fn retain_pending(st: &mut ConstraintState, rm: &Vec<TaskId>)
    requires
        old(st).wf(),
    ensures
        final(st).wf(),
        same_but_deps(*final(st), *old(st)),
        final(st).pending() == retain_ids(old(st).pending(), ids_view(rm@).to_set()),
{
    let ghost deps = old(st).pending();
    let mut j: usize = 0;
    proof {
        assert(ids_view(rm@.take(0)).to_set() =~= Set::<IdView>::empty());
        crate::satisfaction::lemma_retain_disjoint(deps, Set::<IdView>::empty());
    }
    while j < rm.len()
        invariant
            j <= rm@.len(),
            deps == old(st).pending(),
            ids_unique(deps),
            same_but_deps(*st, *old(st)),
            st.context == old(st).context,
            st.pending() == retain_ids(deps, ids_view(rm@.take(j as int)).to_set()),
        decreases rm@.len() - j,
    {
        let x = &rm[j];
        let ghost before = st.pending();
        id_set_remove(&mut st.unsatisfied_dependencies, &(x.uuid, x.object_type.clone()));
        proof {
            let a = ids_view(rm@.take(j as int)).to_set();
            lemma_retain_ids_compose(deps, a, set![x@]);
            assert(ids_view(rm@.take(j as int + 1)) =~= ids_view(rm@.take(j as int)).push(x@));
            ids_view(rm@.take(j as int)).lemma_push_to_set_commute(x@);
            assert(a.union(set![x@]) =~= a.insert(x@));
        }
        j = j + 1;
    }
    proof {
        assert(rm@.take(j as int) =~= rm@);
        lemma_retain_ids(deps, ids_view(rm@).to_set());
    }
}

/// The states without those whose id is in `rm`, and without `rm` among the
/// pending dependencies of the others.
fn prune_states(states: &mut Vec<ConstraintState>, rm: &Vec<TaskId>)
    requires
        all_wf(old(states)@),
    ensures
        all_wf(final(states)@),
        derived_from(final(states)@, old(states)@),
        graph_view(final(states)@) == prune(graph_view(old(states)@), ids_view(rm@).to_set()),
{
    let ghost s0 = states@;
    let ghost set = ids_view(rm@).to_set();
    let mut out: Vec<ConstraintState> = Vec::new();
    let ghost mut i: int = 0;
    while states.len() > 0
        invariant
            0 <= i <= s0.len(),
            states@ == s0.skip(i),
            all_wf(s0),
            set == ids_view(rm@).to_set(),
            all_wf(out@),
            derived_from(out@, s0),
            graph_view(out@) == prune(graph_view(s0.take(i)), set),
        decreases states@.len(),
    {
        let mut st = states.remove(0);
        proof {
            assert(st == s0[i]);
            assert(s0[i].wf());
            assert(graph_view(s0.take(i + 1)).drop_last() =~= graph_view(s0.take(i)));
            assert(graph_view(s0.take(i + 1)).last() == node_view(s0[i]));
        }
        let id = id_of(&st);
        if !contains_id(rm, &id) {
            retain_pending(&mut st, rm);
            let ghost o0 = out@;
            out.push(st);
            proof {
                assert(graph_view(out@) =~= graph_view(o0).push(node_view(st)));
                assert forall|k: int| 0 <= k < out@.len() implies has_origin(#[trigger] out@[k], s0) by {
                    if k < o0.len() {
                        assert(out@[k] == o0[k]);
                    } else {
                        assert(same_but_deps(out@[k], s0[i]));
                    }
                }
            }
        }
        proof {
            i = i + 1;
            assert(states@ =~= s0.skip(i));
        }
    }
    proof {
        assert(s0.take(i) =~= s0);
    }
    *states = out;
}

/// The ids of the dangling dummy tasks among the states.
fn dangling_ids(states: &Vec<ConstraintState>) -> (r: Vec<TaskId>)
    ensures
        forall|x: IdView| #[trigger] ids_view(r@).contains(x) <==> exists|i: int| 0 <= i < states@.len()
            && is_dangling(graph_view(states@)[i]) && graph_view(states@)[i].0 == x,
{
    let ghost g = graph_view(states@);
    let mut r: Vec<TaskId> = Vec::new();
    let mut i: usize = 0;
    while i < states.len()
        invariant
            i <= states@.len(),
            g == graph_view(states@),
            forall|x: IdView| #[trigger] ids_view(r@).contains(x) <==> exists|k: int| 0 <= k < i
                && is_dangling(g[k]) && g[k].0 == x,
        decreases states@.len() - i,
    {
        let st = &states[i];
        proof {
            assert(g[i as int] == node_view(states@[i as int]));
        }
        if id_set_len(&st.unsatisfied_dependencies) == 0 && !st.requires_program {
            let ghost r0 = r@;
            r.push(id_of(st));
            proof {
                assert(ids_view(r@) =~= ids_view(r0).push(g[i as int].0));
                assert forall|x: IdView| #[trigger] ids_view(r@).contains(x) <==> exists|k: int| 0 <= k < i + 1
                    && is_dangling(g[k]) && g[k].0 == x by {
                    if ids_view(r@).contains(x) && !ids_view(r0).contains(x) {
                        let p = choose|p: int| 0 <= p < ids_view(r@).len() && ids_view(r@)[p] == x;
                        assert(p == r0.len());
                    }
                    if ids_view(r0).contains(x) {
                        let p = choose|p: int| 0 <= p < ids_view(r0).len() && ids_view(r0)[p] == x;
                        assert(ids_view(r@)[p] == x);
                    }
                    if x == g[i as int].0 {
                        assert(ids_view(r@)[r0.len() as int] == x);
                    }
                }
            }
        }
        i = i + 1;
    }
    r
}

/// Removes dangling dummy tasks until none is left: each round takes out
/// every state that needs no program and has no pending dependency, and
/// drops those states from the pending dependencies of the others. What goes
/// is exactly `dangling_closure`; the others keep their order, and nothing
/// dangles at the end.
pub fn remove_dangling_dummy_tasks(states: &mut Vec<ConstraintState>)
    requires
        all_wf(old(states)@),
        keys_unique(graph_view(old(states)@)),
    ensures
        all_wf(final(states)@),
        derived_from(final(states)@, old(states)@),
        keys_unique(graph_view(final(states)@)),
        graph_view(final(states)@) == prune(graph_view(old(states)@), dangling_closure(graph_view(old(states)@))),
        forall|i: int| 0 <= i < final(states)@.len() ==> !is_dangling(#[trigger] graph_view(final(states)@)[i]),
{
    let ghost s0 = states@;
    let ghost g0 = graph_view(states@);
    let ghost mut rset: Set<IdView> = Set::empty();
    let ghost mut rounds: nat = 0;
    proof {
        lemma_prune_empty(g0);
        derived_refl(s0);
    }
    loop
        invariant
            g0 == graph_view(s0),
            keys_unique(g0),
            all_wf(states@),
            derived_from(states@, s0),
            graph_view(states@) == prune(g0, rset),
            forall|k: IdView| #[trigger] rset.contains(k) ==> removable(g0, k, rounds),
        ensures
            all_wf(states@),
            derived_from(states@, s0),
            graph_view(states@) == prune(g0, rset),
            forall|k: IdView| #[trigger] rset.contains(k) ==> removable(g0, k, rounds),
            forall|i: int| 0 <= i < prune(g0, rset).len() ==> !is_dangling(#[trigger] prune(g0, rset)[i]),
        decreases states@.len(),
    {
        let dangling = dangling_ids(states);
        let ghost cur = graph_view(states@);
        if dangling.len() == 0 {
            proof {
                assert forall|i: int| 0 <= i < prune(g0, rset).len() implies !is_dangling(#[trigger] prune(g0, rset)[i]) by {
                    if is_dangling(cur[i]) {
                        assert(ids_view(dangling@).contains(cur[i].0));
                    }
                }
            }
            break;
        }
        let ghost d = ids_view(dangling@).to_set();
        let ghost s1 = states@;
        prune_states(states, &dangling);
        proof {
            lemma_prune_nodes(g0, rset);
            lemma_prune_nodes(cur, d);
            lemma_prune_compose(g0, rset, d);
            assert(ids_view(dangling@).contains(ids_view(dangling@)[0]));
            let x0 = ids_view(dangling@)[0];
            let i0 = choose|i: int| 0 <= i < s1.len() && is_dangling(cur[i]) && cur[i].0 == x0;
            assert(d.contains(cur[i0].0));
            assert forall|k: IdView| #[trigger] rset.union(d).contains(k) implies removable(g0, k, rounds + 1) by {
                if rset.contains(k) {
                    lemma_removable_mono(g0, k, rounds);
                } else {
                    assert(ids_view(dangling@).contains(k));
                    let i = choose|i: int| 0 <= i < s1.len() && is_dangling(cur[i]) && cur[i].0 == k;
                    let j = choose|j: int| 0 <= j < g0.len() && !rset.contains(g0[j].0)
                        && #[trigger] prune(g0, rset)[i] == (g0[j].0, g0[j].1, retain_ids(g0[j].2, rset));
                    lemma_retain_ids(g0[j].2, rset);
                    assert forall|m: int| 0 <= m < g0[j].2.len() implies removable(g0, #[trigger] g0[j].2[m], rounds) by {
                        if !rset.contains(g0[j].2[m]) {
                            assert(g0[j].2.contains(g0[j].2[m]));
                            assert(retain_ids(g0[j].2, rset).contains(g0[j].2[m]));
                        }
                    }
                    assert(g0[j].0 == k);
                }
            }
            lemma_derived_trans(states@, s1, s0);
            rset = rset.union(d);
            rounds = rounds + 1;
        }
    }
    proof {
        let cl = dangling_closure(g0);
        assert forall|k: IdView| #[trigger] cl.contains(k) <==> rset.contains(k) by {
            if rset.contains(k) {
                assert(removable(g0, k, rounds));
            }
            if cl.contains(k) {
                let d = choose|d: nat| removable(g0, k, d);
                lemma_closure_removed(g0, rset, k, d);
            }
        }
        assert(cl =~= rset);
        lemma_prune_nodes(g0, rset);
    }
}

proof fn lemma_prune_empty(g: Seq<NodeView>)
    ensures
        prune(g, Set::empty()) == g,
    decreases g.len(),
{
    if g.len() > 0 {
        lemma_prune_empty(g.drop_last());
        lemma_retain_empty(g.last().2);
        assert(g.drop_last().push(g.last()) =~= g);
    }
}

proof fn lemma_retain_empty(s: Seq<IdView>)
    ensures
        retain_ids(s, Set::empty()) == s,
    decreases s.len(),
{
    if s.len() > 0 {
        lemma_retain_empty(s.drop_last());
        assert(s.drop_last().push(s.last()) =~= s);
    }
}

/// Being derived from a graph (each state an earlier one with only its
/// dependencies changed) carries over through two steps.
pub proof fn lemma_derived_trans(a: Seq<ConstraintState>, b: Seq<ConstraintState>, c: Seq<ConstraintState>)
    requires
        derived_from(a, b),
        derived_from(b, c),
    ensures
        derived_from(a, c),
{
    assert forall|i: int| 0 <= i < a.len() implies has_origin(#[trigger] a[i], c) by {
        assert(has_origin(a[i], b));
        let j = choose|j: int| 0 <= j < b.len() && same_but_deps(a[i], #[trigger] b[j]);
        assert(has_origin(b[j], c));
        let k = choose|k: int| 0 <= k < c.len() && same_but_deps(b[j], #[trigger] c[k]);
        assert(same_but_deps(a[i], c[k]));
    }
}

proof fn derived_refl(a: Seq<ConstraintState>)
    ensures
        derived_from(a, a),
{
    assert forall|i: int| 0 <= i < a.len() implies has_origin(#[trigger] a[i], a) by {
        assert(same_but_deps(a[i], a[i]));
    }
}

/// A superfluous dummy task: one that needs no program and has exactly one
/// pending dependency, which it only passes on.
pub open spec fn is_superfluous(n: NodeView) -> bool {
    n.2.len() == 1 && !n.1
}

/// The position of the first superfluous node of `g` at or after `i`.
pub open spec fn first_superfluous_from(g: Seq<NodeView>, i: int) -> Option<int>
    decreases g.len() - i,
{
    if i < 0 || i >= g.len() {
        None
    } else if is_superfluous(g[i]) {
        Some(i)
    } else {
        first_superfluous_from(g, i + 1)
    }
}

/// The dependencies of a node once `k` is bypassed for `d`: without `k`,
/// and with `d` (moved) at the end, when `k` was among them; unchanged
/// otherwise.
pub open spec fn reroute(s: Seq<IdView>, k: IdView, d: IdView) -> Seq<IdView> {
    if s.contains(k) {
        retain_ids(s, set![k, d]).push(d)
    } else {
        s
    }
}

/// The graph once the superfluous node at `i` is taken out and its
/// dependents depend on its dependency instead.
pub open spec fn bypass(g: Seq<NodeView>, i: int) -> Seq<NodeView> {
    let k = g[i].0;
    let d = g[i].2[0];
    g.remove(i).map_values(|n: NodeView| (n.0, n.1, reroute(n.2, k, d)))
}

/// The graph after at most `fuel` steps of bypassing the first superfluous
/// node.
pub open spec fn remove_superfluous(g: Seq<NodeView>, fuel: nat) -> Seq<NodeView>
    decreases fuel,
{
    if fuel == 0 {
        g
    } else {
        match first_superfluous_from(g, 0) {
            None => g,
            Some(i) => remove_superfluous(bypass(g, i), (fuel - 1) as nat),
        }
    }
}

/// In the first `fuel` steps of bypassing, no superfluous node depends on
/// itself (bypassing one that does is an error).
pub open spec fn superfluous_safe(g: Seq<NodeView>, fuel: nat) -> bool
    decreases fuel,
{
    if fuel == 0 {
        true
    } else {
        match first_superfluous_from(g, 0) {
            None => true,
            Some(i) => g[i].2[0] != g[i].0 && superfluous_safe(bypass(g, i), (fuel - 1) as nat),
        }
    }
}

proof fn lemma_first_superfluous(g: Seq<NodeView>, i: int)
    requires
        0 <= i <= g.len(),
    ensures
        match first_superfluous_from(g, i) {
            Some(p) => i <= p < g.len() && is_superfluous(g[p]) && forall|q: int| i <= q < p ==> !is_superfluous(#[trigger] g[q]),
            None => forall|q: int| i <= q < g.len() ==> !is_superfluous(#[trigger] g[q]),
        },
    decreases g.len() - i,
{
    if i < g.len() {
        lemma_first_superfluous(g, i + 1);
    }
}

/// After as many steps as there are nodes, no superfluous node is left.
proof fn lemma_remove_superfluous_done(g: Seq<NodeView>)
    ensures
        forall|q: int| 0 <= q < remove_superfluous(g, g.len()).len() ==> !is_superfluous(#[trigger] remove_superfluous(g, g.len())[q]),
    decreases g.len(),
{
    lemma_first_superfluous(g, 0);
    if g.len() > 0 {
        match first_superfluous_from(g, 0) {
            None => {},
            Some(i) => {
                let b = bypass(g, i);
                assert(b.len() == g.len() - 1);
                assert(remove_superfluous(g, g.len()) == remove_superfluous(b, (g.len() - 1) as nat));
                lemma_remove_superfluous_done(b);
            },
        }
    }
}

proof fn lemma_origin_trans(x: ConstraintState, y: ConstraintState, g: Seq<ConstraintState>)
    requires
        same_but_deps(x, y),
        has_origin(y, g),
    ensures
        has_origin(x, g),
{
    let j = choose|j: int| 0 <= j < g.len() && same_but_deps(y, #[trigger] g[j]);
    assert(same_but_deps(x, g[j]));
}

/// The position of the first superfluous state.
fn find_superfluous(states: &Vec<ConstraintState>) -> (r: Option<usize>)
    ensures
        match r {
            Some(i) => first_superfluous_from(graph_view(states@), 0) == Some(i as int),
            None => first_superfluous_from(graph_view(states@), 0) is None,
        },
{
    let ghost g = graph_view(states@);
    let mut i: usize = 0;
    while i < states.len()
        invariant
            i <= states@.len(),
            g == graph_view(states@),
            first_superfluous_from(g, 0) == first_superfluous_from(g, i as int),
        decreases states@.len() - i,
    {
        proof {
            assert(g[i as int] == node_view(states@[i as int]));
        }
        if id_set_len(&states[i].unsatisfied_dependencies) == 1 && !states[i].requires_program {
            return Some(i);
        }
        i = i + 1;
    }
    None
}

/// Replaces `k` by `d` among the pending dependencies of a state that has
/// `k` pending: `k` goes, and `d` is pending last.
fn reroute_pending(st: &mut ConstraintState, k: &TaskId, d: &TaskId)
    requires
        old(st).wf(),
        old(st).pending().contains(k@),
    ensures
        final(st).wf(),
        same_but_deps(*final(st), *old(st)),
        final(st).pending() == reroute(old(st).pending(), k@, d@),
{
    let ghost deps = old(st).pending();
    id_set_remove(&mut st.unsatisfied_dependencies, &(k.uuid, k.object_type.clone()));
    id_set_insert(&mut st.unsatisfied_dependencies, (d.uuid, d.object_type.clone()));
    proof {
        lemma_retain_ids_compose(deps, set![k@], set![d@]);
        assert(set![k@].union(set![d@]) =~= set![k@, d@]);
        let kept = retain_ids(deps, set![k@, d@]);
        lemma_retain_ids(deps, set![k@, d@]);
        assert(st.pending() == kept.push(d@));
        assert(!kept.contains(d@));
        assert forall|a: int, b: int| 0 <= a < kept.len() + 1 && 0 <= b < kept.len() + 1 && a != b implies st.pending()[a] != st.pending()[b] by {
            if a == kept.len() as int {
                assert(st.pending()[b] == kept[b]);
            } else if b == kept.len() as int {
                assert(st.pending()[a] == kept[a]);
            } else {
                assert(st.pending()[a] == kept[a] && st.pending()[b] == kept[b]);
            }
        }
    }
}

/// The dependencies of the graph go strictly down in `rank`: every
/// dependency ranks below the node that depends on it.
pub open spec fn ranked(g: Seq<NodeView>, rank: spec_fn(IdView) -> nat) -> bool {
    forall|i: int, j: int| 0 <= i < g.len() && 0 <= j < g[i].2.len() ==> rank(#[trigger] g[i].2[j]) < rank(g[i].0)
}

proof fn lemma_bypass_ranked(g: Seq<NodeView>, i: int, rank: spec_fn(IdView) -> nat)
    requires
        ranked(g, rank),
        0 <= i < g.len(),
        g[i].2.len() > 0,
    ensures
        ranked(bypass(g, i), rank),
{
    let k = g[i].0;
    let d = g[i].2[0];
    let b = bypass(g, i);
    assert(rank(d) < rank(k));
    assert forall|p: int, j: int| 0 <= p < b.len() && 0 <= j < b[p].2.len() implies rank(#[trigger] b[p].2[j]) < rank(b[p].0) by {
        let q = if p < i { p } else { p + 1 };
        assert(g.remove(i)[p] == g[q]);
        let n = g[q];
        assert(b[p] == (n.0, n.1, reroute(n.2, k, d)));
        if n.2.contains(k) {
            let kept = retain_ids(n.2, set![k, d]);
            lemma_retain_ids(n.2, set![k, d]);
            if j < kept.len() {
                assert(kept.contains(kept[j]));
                let m = choose|m: int| 0 <= m < n.2.len() && n.2[m] == kept[j];
                assert(rank(n.2[m]) < rank(n.0));
            } else {
                let m = choose|m: int| 0 <= m < n.2.len() && n.2[m] == k;
                assert(rank(n.2[m]) < rank(n.0));
            }
        } else {
            assert(rank(n.2[j]) < rank(n.0));
        }
    }
}

/// A graph whose dependencies go strictly down in some rank (a graph
/// without cycles) can have its superfluous dummy tasks removed: no
/// bypassed node ever depends on itself.
pub proof fn lemma_ranked_superfluous_safe(g: Seq<NodeView>, rank: spec_fn(IdView) -> nat, fuel: nat)
    requires
        ranked(g, rank),
    ensures
        superfluous_safe(g, fuel),
    decreases fuel,
{
    if fuel > 0 {
        lemma_first_superfluous(g, 0);
        match first_superfluous_from(g, 0) {
            None => {},
            Some(i) => {
                assert(rank(g[i].2[0]) < rank(g[i].0));
                lemma_bypass_ranked(g, i, rank);
                lemma_ranked_superfluous_safe(bypass(g, i), rank, (fuel - 1) as nat);
            },
        }
    }
}

/// Removes superfluous dummy tasks one at a time: the first state (in
/// order) that needs no program and has a single pending dependency goes,
/// and every state that depended on it depends on its dependency instead
/// (see `bypass`), until none is left. A bypassed state that depends on
/// itself is a fatal error; `superfluous_safe` excludes those inputs.
pub fn remove_superfluous_dummy_tasks(states: &mut Vec<ConstraintState>)
    requires
        all_wf(old(states)@),
        keys_unique(graph_view(old(states)@)),
        superfluous_safe(graph_view(old(states)@), old(states)@.len()),
    ensures
        all_wf(final(states)@),
        derived_from(final(states)@, old(states)@),
        keys_unique(graph_view(final(states)@)),
        graph_view(final(states)@) == remove_superfluous(graph_view(old(states)@), old(states)@.len()),
        forall|i: int| 0 <= i < final(states)@.len() ==> !is_superfluous(#[trigger] graph_view(final(states)@)[i]),
{
    let ghost s0 = states@;
    let ghost g0 = graph_view(states@);
    proof {
        derived_refl(s0);
        lemma_remove_superfluous_done(g0);
    }
    loop
        invariant
            g0 == graph_view(s0),
            all_wf(states@),
            derived_from(states@, s0),
            keys_unique(graph_view(states@)),
            remove_superfluous(g0, g0.len()) == remove_superfluous(graph_view(states@), states@.len()),
            superfluous_safe(graph_view(states@), states@.len()),
        ensures
            all_wf(states@),
            derived_from(states@, s0),
            keys_unique(graph_view(states@)),
            graph_view(states@) == remove_superfluous(g0, g0.len()),
        decreases states@.len(),
    {
        let ghost cur = graph_view(states@);
        let found = find_superfluous(states);
        match found {
            None => {
                proof {
                    if states@.len() > 0 {
                        assert(remove_superfluous(cur, states@.len()) == cur);
                    }
                }
                break;
            },
            Some(i) => {
                let ghost s1 = states@;
                proof {
                    lemma_first_superfluous(cur, 0);
                    assert(cur[i as int] == node_view(s1[i as int]));
                    assert(s1[i as int].wf());
                }
                let elem = states.remove(i);
                let k = id_of(&elem);
                let front = id_set_front(&elem.unsatisfied_dependencies);
                let d = match front {
                    Some(x) => TaskId::new(x.0, x.1.clone()),
                    None => TaskId::new(0, String::new()),
                };
                proof {
                    assert(k@ == cur[i as int].0);
                    assert(d@ == cur[i as int].2[0]);
                }
                let ghost s2 = states@;
                let ghost c2 = cur.remove(i as int);
                proof {
                    assert(graph_view(s2) =~= c2);
                }
                let mut j: usize = 0;
                while j < states.len()
                    invariant
                        states@.len() == s2.len(),
                        j <= s2.len(),
                        c2 == graph_view(s2),
                        all_wf(s2),
                        all_wf(states@),
                        derived_from(s2, s0),
                        derived_from(states@, s0),
                        forall|p: int| j <= p < s2.len() ==> #[trigger] states@[p] == s2[p],
                        forall|p: int| 0 <= p < j ==> #[trigger] node_view(states@[p]) == (c2[p].0, c2[p].1, reroute(c2[p].2, k@, d@)),
                    decreases s2.len() - j,
                {
                    let mut st = states.remove(j);
                    proof {
                        assert(st == s2[j as int]);
                        assert(st.wf());
                        assert(has_origin(s2[j as int], s0));
                        assert(c2[j as int] == node_view(s2[j as int]));
                    }
                    let ghost st0 = st;
                    if contains_pending(&st, &k) {
                        reroute_pending(&mut st, &k, &d);
                    }
                    proof {
                        lemma_origin_trans(st, st0, s0);
                    }
                    let ghost before = states@;
                    states.insert(j, st);
                    proof {
                        assert forall|p: int| 0 <= p < states@.len() implies has_origin(#[trigger] states@[p], s0) by {
                            if p < j {
                                assert(states@[p] == before[p]);
                            } else if p > j {
                                assert(states@[p] == before[p - 1]);
                            }
                        }
                        assert forall|p: int| 0 <= p < states@.len() implies #[trigger] states@[p].wf() by {
                            if p < j {
                                assert(states@[p] == before[p]);
                            } else if p > j {
                                assert(states@[p] == before[p - 1]);
                            }
                        }
                        assert forall|p: int| j + 1 <= p < s2.len() implies #[trigger] states@[p] == s2[p] by {
                            assert(states@[p] == before[p - 1]);
                        }
                        assert forall|p: int| 0 <= p < j + 1 implies #[trigger] node_view(states@[p]) == (c2[p].0, c2[p].1, reroute(c2[p].2, k@, d@)) by {
                            if p < j {
                                assert(states@[p] == before[p]);
                            }
                        }
                    }
                    j = j + 1;
                }
                proof {
                    assert(graph_view(states@) =~= bypass(cur, i as int));
                    lemma_prune_nodes(cur, Set::empty());
                    assert(keys_unique(graph_view(states@))) by {
                        let g = graph_view(states@);
                        assert forall|a: int, b: int| 0 <= a < g.len() && 0 <= b < g.len() && a != b implies g[a].0 != g[b].0 by {
                            assert(g[a].0 == c2[a].0 && g[b].0 == c2[b].0);
                            let aa = if a < i { a } else { a + 1 };
                            let bb = if b < i { b } else { b + 1 };
                            assert(c2[a] == cur[aa] && c2[b] == cur[bb]);
                        }
                    }
                }
            },
        }
    }
}

} // verus!
