//! What becomes of a satisfied block: states that would run the same
//! program with the same arguments are merged into one task, every task
//! gets its fully qualified name, and a block of several tasks gets a
//! dictionary to hold them.
use vstd::prelude::*;
use crate::ancestor_record::{opt_string_view, records_view};
use crate::ast::{AST, ASTView, SimpleIdentifier, StringLiteral, Subscript, clone_ast};
use crate::ast_compare::{asts_eq, keywords_eq};
use crate::constraint_state::{
    ConstraintState, ParameterTuple, fully_qualified_task_name, opt_args_view, opt_kwargs_view,
    task_key,
};
use crate::dialect::{Dialect, DialectView, sorted_insert, strictly_sorted, texts};
use crate::strings::{str_eq, string_of};

verus! {

/// Two states would run the same task: both have a program, with the same
/// preamble, call, parameters and dialect.
pub open spec fn same_task(a: ConstraintState, b: ConstraintState) -> bool {
    &&& a.dialect is Some
    &&& b.dialect is Some
    &&& opt_string_view(a.preamble) == opt_string_view(b.preamble)
    &&& opt_string_view(a.call) == opt_string_view(b.call)
    &&& opt_args_view(a.params) == opt_args_view(b.params)
    &&& opt_kwargs_view(a.params) == opt_kwargs_view(b.params)
    &&& a.dialect_view() == b.dialect_view()
}

/// The state at `i` stands for its task: it has no program, or no earlier
/// state runs the same task.
pub open spec fn is_representative(s: Seq<ConstraintState>, i: int) -> bool {
    s[i].dialect is None || forall|j: int| 0 <= j < i ==> !same_task(#[trigger] s[j], s[i])
}

/// The positions of the representatives among the first `n` states.
pub open spec fn representatives(s: Seq<ConstraintState>, n: int) -> Seq<int>
    decreases n,
{
    if n <= 0 {
        Seq::empty()
    } else {
        let r = representatives(s, n - 1);
        if is_representative(s, n - 1) {
            r.push(n - 1)
        } else {
            r
        }
    }
}

/// The constraint UUIDs that the representative at `i` stands for, among
/// the first `n` states: itself when it has no program; otherwise the later
/// states that run the same task, in order.
pub open spec fn merged_uuids(s: Seq<ConstraintState>, i: int, n: int) -> Seq<u128>
    decreases n,
{
    if s[i].dialect is None {
        seq![s[i].constraint_uuid]
    } else if n <= 0 || n <= i + 1 {
        Seq::empty()
    } else {
        let r = merged_uuids(s, i, n - 1);
        if same_task(s[i], s[n - 1]) {
            r.push(s[n - 1].constraint_uuid)
        } else {
            r
        }
    }
}

fn opt_str_eq(a: &Option<String>, b: &Option<String>) -> (r: bool)
    ensures
        r == (opt_string_view(*a) == opt_string_view(*b)),
{
    match (a, b) {
        (Some(x), Some(y)) => str_eq(x.as_str(), y.as_str()),
        (None, None) => true,
        _ => false,
    }
}

fn params_eq(a: &Option<ParameterTuple>, b: &Option<ParameterTuple>) -> (r: bool)
    ensures
        r == (opt_args_view(*a) == opt_args_view(*b) && opt_kwargs_view(*a) == opt_kwargs_view(*b)),
{
    match (a, b) {
        (Some(x), Some(y)) => asts_eq(&x.args, &y.args) && keywords_eq(&x.kwargs, &y.kwargs),
        (None, None) => true,
        _ => false,
    }
}

/// Whether two states would run the same task (see `same_task`).
pub fn same_task_exec(a: &ConstraintState, b: &ConstraintState) -> (r: bool)
    ensures
        r == same_task(*a, *b),
        r ==> a.dialect is Some && b.dialect is Some
            && opt_string_view(a.preamble) == opt_string_view(b.preamble)
            && opt_string_view(a.call) == opt_string_view(b.call)
            && opt_args_view(a.params) == opt_args_view(b.params)
            && opt_kwargs_view(a.params) == opt_kwargs_view(b.params)
            && a.dialect_view() == b.dialect_view(),
{
    match (&a.dialect, &b.dialect) {
        (Some(da), Some(db)) => opt_str_eq(&a.preamble, &b.preamble) && opt_str_eq(&a.call, &b.call)
            && params_eq(&a.params, &b.params) && da.equals(db),
        _ => false,
    }
}

proof fn lemma_representatives_facts(s: Seq<ConstraintState>, n: int)
    requires
        0 <= n <= s.len(),
    ensures
        forall|p: int| 0 <= p < representatives(s, n).len() ==> 0 <= #[trigger] representatives(s, n)[p] < n
            && is_representative(s, representatives(s, n)[p]),
        forall|p: int, q: int| 0 <= p < q < representatives(s, n).len() ==> representatives(s, n)[p] < representatives(s, n)[q],
        forall|j: int| 0 <= j < n && is_representative(s, j) ==> exists|p: int| 0 <= p < representatives(s, n).len() && #[trigger] representatives(s, n)[p] == j,
    decreases n,
{
    if n > 0 {
        lemma_representatives_facts(s, n - 1);
        let r = representatives(s, n - 1);
        let t = representatives(s, n);
        if is_representative(s, n - 1) {
            assert(t == r.push(n - 1));
            assert(t[r.len() as int] == n - 1);
            assert forall|p: int| 0 <= p < t.len() implies 0 <= #[trigger] t[p] < n && is_representative(s, t[p]) by {
                if p < r.len() {
                    assert(t[p] == r[p]);
                }
            }
            assert forall|p: int, q: int| 0 <= p < q < t.len() implies t[p] < t[q] by {
                assert(t[p] == r[p]);
                if q < r.len() {
                    assert(t[q] == r[q]);
                }
            }
            assert forall|j: int| 0 <= j < n && is_representative(s, j) implies exists|p: int| 0 <= p < t.len() && #[trigger] t[p] == j by {
                if j < n - 1 {
                    let p = choose|p: int| 0 <= p < r.len() && #[trigger] r[p] == j;
                    assert(t[p] == j);
                }
            }
        } else {
            assert(t == r);
        }
    }
}

/// Every state with a program runs the same task as some representative at
/// or before it.
proof fn lemma_task_has_representative(s: Seq<ConstraintState>, j: int)
    requires
        0 <= j < s.len(),
        s[j].dialect is Some,
    ensures
        exists|m: int| 0 <= m <= j && is_representative(s, m) && same_task(#[trigger] s[m], s[j]),
    decreases j,
{
    if is_representative(s, j) {
        assert(same_task(s[j], s[j]));
    } else {
        let k = choose|k: int| 0 <= k < j && same_task(#[trigger] s[k], s[j]);
        lemma_task_has_representative(s, k);
        let m = choose|m: int| 0 <= m <= k && is_representative(s, m) && same_task(#[trigger] s[m], s[k]);
        assert(same_task(s[m], s[j]));
    }
}

proof fn lemma_merged_step(s: Seq<ConstraintState>, r: int, n: int)
    requires
        0 <= r < n < s.len(),
    ensures
        merged_uuids(s, r, n + 1) == (if s[r].dialect is Some && same_task(s[r], s[n]) {
            merged_uuids(s, r, n).push(s[n].constraint_uuid)
        } else {
            merged_uuids(s, r, n)
        }),
{
}

/// Merging keeps tasks with different parameters apart: every UUID that a
/// task with a program stands for, among the first `n` states, is that of
/// a later state with the same preamble, call, positional and keyword
/// arguments, and dialect.
pub proof fn lemma_merged_states_run_the_same_program(s: Seq<ConstraintState>, i: int, n: int, u: u128)
    requires
        0 <= i < s.len(),
        n <= s.len(),
        s[i].dialect is Some,
        merged_uuids(s, i, n).contains(u),
    ensures
        exists|k: int| i < k < n && #[trigger] s[k].constraint_uuid == u
            && opt_string_view(s[k].preamble) == opt_string_view(s[i].preamble)
            && opt_string_view(s[k].call) == opt_string_view(s[i].call)
            && opt_args_view(s[k].params) == opt_args_view(s[i].params)
            && opt_kwargs_view(s[k].params) == opt_kwargs_view(s[i].params)
            && s[k].dialect_view() == s[i].dialect_view(),
    decreases n,
{
    if n <= 0 || n <= i + 1 {
        assert(merged_uuids(s, i, n) =~= Seq::<u128>::empty());
    } else {
        let r = merged_uuids(s, i, n - 1);
        if same_task(s[i], s[n - 1]) && u == s[n - 1].constraint_uuid {
            assert(s[n - 1].constraint_uuid == u);
        } else {
            if same_task(s[i], s[n - 1]) {
                let q = choose|q: int| 0 <= q < merged_uuids(s, i, n).len() && merged_uuids(s, i, n)[q] == u;
                assert(merged_uuids(s, i, n) == r.push(s[n - 1].constraint_uuid));
                assert(q < r.len());
                assert(r[q] == u);
            }
            assert(r.contains(u));
            lemma_merged_states_run_the_same_program(s, i, n - 1, u);
        }
    }
}

/// The tasks that merging keeps are pairwise different: no two
/// representatives would run the same task.
pub proof fn lemma_tasks_distinct(s: Seq<ConstraintState>, p: int, q: int)
    requires
        0 <= p < q < representatives(s, s.len() as int).len(),
    ensures
        !same_task(s[representatives(s, s.len() as int)[p]], s[representatives(s, s.len() as int)[q]]),
{
    lemma_representatives_facts(s, s.len() as int);
    let reps = representatives(s, s.len() as int);
    assert(0 <= reps[p] < s.len());
    assert(0 <= reps[q] < s.len() && is_representative(s, reps[q]));
    assert(reps[p] < reps[q]);
}

/// Once `j` is past the representative `m` of its task, the UUIDs that `m`
/// stands for among the first `n` states include that of `j`.
proof fn lemma_merged_contains(s: Seq<ConstraintState>, m: int, j: int, n: int)
    requires
        0 <= m < j < n <= s.len(),
        s[m].dialect is Some,
        same_task(s[m], s[j]),
    ensures
        merged_uuids(s, m, n).contains(s[j].constraint_uuid),
    decreases n,
{
    if n == j + 1 {
        lemma_merged_step(s, m, j);
        let r = merged_uuids(s, m, j);
        assert(merged_uuids(s, m, n) == r.push(s[j].constraint_uuid));
        assert(merged_uuids(s, m, n)[r.len() as int] == s[j].constraint_uuid);
    } else {
        lemma_merged_contains(s, m, j, n - 1);
        lemma_merged_step(s, m, n - 1);
        let r = merged_uuids(s, m, n - 1);
        let k = choose|k: int| 0 <= k < r.len() && r[k] == s[j].constraint_uuid;
        if s[m].dialect is Some && same_task(s[m], s[n - 1]) {
            assert(merged_uuids(s, m, n)[k] == s[j].constraint_uuid);
        }
    }
}

/// Merging loses no constraint: every state is a representative, or its
/// constraint UUID is among those that a representative stands for.
pub proof fn lemma_every_constraint_kept(s: Seq<ConstraintState>, j: int)
    requires
        0 <= j < s.len(),
    ensures
        exists|p: int| 0 <= p < representatives(s, s.len() as int).len() && (
            #[trigger] representatives(s, s.len() as int)[p] == j
            || merged_uuids(s, representatives(s, s.len() as int)[p], s.len() as int).contains(s[j].constraint_uuid)),
{
    lemma_representatives_facts(s, s.len() as int);
    let reps = representatives(s, s.len() as int);
    if is_representative(s, j) {
        let p = choose|p: int| 0 <= p < reps.len() && #[trigger] reps[p] == j;
        assert(reps[p] == j);
    } else {
        lemma_task_has_representative(s, j);
        let m = choose|m: int| 0 <= m <= j && is_representative(s, m) && same_task(#[trigger] s[m], s[j]);
        assert(m != j);
        lemma_merged_contains(s, m, j, s.len() as int);
        let p = choose|p: int| 0 <= p < reps.len() && #[trigger] reps[p] == m;
        assert(merged_uuids(s, reps[p], s.len() as int).contains(s[j].constraint_uuid));
    }
}

/// Merges the states that would run the same task: the representatives
/// (see `is_representative`) are kept, in order, each with the constraint
/// UUIDs it stands for (see `merged_uuids`). The tasks come in the order
/// of the states.
pub fn dedup_tasks(states: Vec<ConstraintState>) -> (r: (Vec<ConstraintState>, Vec<(u128, Vec<u128>)>))
    ensures
        r.0@.len() == representatives(states@, states@.len() as int).len(),
        r.1@.len() == r.0@.len(),
        forall|p: int| 0 <= p < r.0@.len() ==> #[trigger] r.0@[p] == states@[representatives(states@, states@.len() as int)[p]],
        forall|p: int| 0 <= p < r.1@.len() ==> (#[trigger] r.1@[p]).0 == r.0@[p].constraint_uuid
            && r.1@[p].1@ == merged_uuids(states@, representatives(states@, states@.len() as int)[p], states@.len() as int),
{
    let ghost s0 = states@;
    let mut reps: Vec<ConstraintState> = Vec::new();
    let mut maps: Vec<(u128, Vec<u128>)> = Vec::new();
    let mut src = states;
    let ghost mut i: int = 0;
    while src.len() > 0
        invariant
            0 <= i <= s0.len(),
            src@ == s0.skip(i),
            maps@.len() == reps@.len(),
            representatives(s0, i).len() == reps@.len(),
            forall|p: int| 0 <= p < reps@.len() ==> #[trigger] reps@[p] == s0[representatives(s0, i)[p]],
            forall|p: int| 0 <= p < maps@.len() ==> (#[trigger] maps@[p]).0 == reps@[p].constraint_uuid
                && maps@[p].1@ == merged_uuids(s0, representatives(s0, i)[p], i),
        decreases src@.len(),
    {
        let st = src.remove(0);
        let ghost reps_i = representatives(s0, i);
        proof {
            assert(st == s0[i]);
            lemma_representatives_facts(s0, i);
        }
        let mut found: Option<usize> = None;
        if st.dialect.is_some() {
            let mut p: usize = 0;
            while p < reps.len()
                invariant_except_break
                    found is None,
                invariant
                    p <= reps@.len(),
                    reps@.len() == reps_i.len(),
                    forall|q: int| 0 <= q < p ==> !same_task(#[trigger] reps@[q], st),
                ensures
                    match found {
                        Some(f) => f < reps@.len() && same_task(reps@[f as int], st),
                        None => forall|q: int| 0 <= q < reps@.len() ==> !same_task(#[trigger] reps@[q], st),
                    },
                decreases reps@.len() - p,
            {
                if same_task_exec(&reps[p], &st) {
                    found = Some(p);
                    break;
                }
                p = p + 1;
            }
        }
        let ghost m0 = maps@;
        match found {
            Some(f) => {
                proof {
                    assert(!is_representative(s0, i)) by {
                        assert(same_task(s0[reps_i[f as int]], s0[i]));
                    }
                    assert(representatives(s0, i + 1) == reps_i);
                }
                let (u, mut v) = maps.remove(f);
                v.push(st.constraint_uuid);
                maps.insert(f, (u, v));
                proof {
                    assert forall|q: int| 0 <= q < maps@.len() implies (#[trigger] maps@[q]).0 == reps@[q].constraint_uuid
                        && maps@[q].1@ == merged_uuids(s0, representatives(s0, i + 1)[q], i + 1) by {
                        lemma_merged_step(s0, reps_i[q], i);
                        if q != f {
                            assert(maps@[q] == m0[q]);
                            assert(!same_task(reps@[q], st)) by {
                                if same_task(reps@[q], st) {
                                    assert(same_task(s0[reps_i[q]], s0[reps_i[f as int]]));
                                    if reps_i[q] < reps_i[f as int] {
                                        assert(is_representative(s0, reps_i[f as int]));
                                    } else {
                                        assert(is_representative(s0, reps_i[q]));
                                        assert(same_task(s0[reps_i[f as int]], s0[reps_i[q]]));
                                    }
                                }
                            }
                        }
                    }
                }
            },
            None => {
                proof {
                    if st.dialect is Some {
                        assert forall|j: int| 0 <= j < i implies !same_task(#[trigger] s0[j], s0[i]) by {
                            if same_task(s0[j], s0[i]) {
                                lemma_task_has_representative(s0, j);
                                let m = choose|m: int| 0 <= m <= j && is_representative(s0, m) && same_task(#[trigger] s0[m], s0[j]);
                                let p = choose|p: int| 0 <= p < reps_i.len() && #[trigger] reps_i[p] == m;
                                assert(reps@[p] == s0[m]);
                                assert(same_task(reps@[p], st));
                            }
                        }
                    }
                    assert(is_representative(s0, i));
                    assert(representatives(s0, i + 1) == reps_i.push(i));
                }
                let u = st.constraint_uuid;
                let mut v: Vec<u128> = Vec::new();
                if st.dialect.is_none() {
                    v.push(u);
                }
                reps.push(st);
                maps.push((u, v));
                proof {
                    assert(v@ =~= merged_uuids(s0, i, i + 1));
                    assert forall|q: int| 0 <= q < maps@.len() implies (#[trigger] maps@[q]).0 == reps@[q].constraint_uuid
                        && maps@[q].1@ == merged_uuids(s0, representatives(s0, i + 1)[q], i + 1) by {
                        if q < m0.len() {
                            lemma_merged_step(s0, reps_i[q], i);
                            assert(maps@[q] == m0[q]);
                            if s0[reps_i[q]].dialect is Some && same_task(s0[reps_i[q]], s0[i]) {
                                assert(same_task(reps@[q], st));
                            }
                        }
                    }
                }
            },
        }
        proof {
            i = i + 1;
            assert(src@ =~= s0.skip(i));
        }
    }
    proof {
        assert(s0.skip(i).len() == 0);
    }
    (reps, maps)
}

/// `new` is `old` with its task key and its fully qualified task name;
/// nothing else changes.
pub open spec fn named(new: ConstraintState, old: ConstraintState) -> bool {
    let key = task_key(opt_string_view(old.root_tag), records_view(old.ancestors@));
    &&& opt_string_view(new.key) == Some(key)
    &&& opt_string_view(new.task_name) == Some(fully_qualified_task_name(old.name@, key, old.constraint_uuid))
    &&& new.name == old.name
    &&& new.dialect == old.dialect
    &&& new.preamble == old.preamble
    &&& new.call == old.call
    &&& new.params == old.params
    &&& new.context == old.context
    &&& new.unsatisfied_dependencies == old.unsatisfied_dependencies
    &&& new.satisfied_dependencies == old.satisfied_dependencies
    &&& new.satisfied == old.satisfied
    &&& new.constraint_uuid == old.constraint_uuid
    &&& new.requires_program == old.requires_program
    &&& new.root_uuid == old.root_uuid
    &&& new.root_type == old.root_type
    &&& new.root_tag == old.root_tag
    &&& new.ancestors == old.ancestors
}

/// Gives every state its task key and its fully qualified task name (see
/// `named`).
pub fn shorten_task_names(states: &mut Vec<ConstraintState>)
    ensures
        final(states)@.len() == old(states)@.len(),
        forall|i: int| 0 <= i < final(states)@.len() ==> named(#[trigger] final(states)@[i], old(states)@[i]),
{
    let ghost s0 = states@;
    let mut i: usize = 0;
    while i < states.len()
        invariant
            states@.len() == s0.len(),
            i <= s0.len(),
            forall|p: int| i <= p < s0.len() ==> #[trigger] states@[p] == s0[p],
            forall|p: int| 0 <= p < i ==> named(#[trigger] states@[p], s0[p]),
        decreases s0.len() - i,
    {
        let mut st = states.remove(i);
        proof {
            assert(st == s0[i as int]);
        }
        st.compute_task_key();
        let fqn = st.get_fully_qualified_task_name();
        st.set_task_name(fqn);
        let ghost before = states@;
        states.insert(i, st);
        proof {
            assert forall|p: int| i + 1 <= p < s0.len() implies #[trigger] states@[p] == s0[p] by {
                assert(states@[p] == before[p - 1]);
            }
            assert forall|p: int| 0 <= p < i + 1 implies named(#[trigger] states@[p], s0[p]) by {
                if p < i {
                    assert(states@[p] == before[p]);
                }
            }
        }
        i = i + 1;
    }
}

/// The name of the dictionary that holds the tasks of a block.
pub open spec fn tasks_dict_view(constraint_name: Seq<char>) -> crate::ast::ASTView {
    crate::ast::ASTView::SimpleIdentifier { name: "tasks_"@ + constraint_name }
}

/// The value that holds a task: its name as an identifier or, when its
/// block has a tasks dictionary, the dictionary subscripted by the name.
pub open spec fn task_val_view(tasks_dict: Option<ASTView>, name: Seq<char>) -> ASTView {
    match tasks_dict {
        None => ASTView::SimpleIdentifier { name },
        Some(d) => ASTView::Subscript {
            a: Box::new(d),
            b: Box::new(ASTView::StringLiteral { value: name, is_sql: false, ancestors: None }),
            store: false,
            ancestors: None,
        },
    }
}

/// A tree, maybe, by value.
pub open spec fn opt_ast_view(t: Option<AST>) -> Option<ASTView> {
    match t {
        Some(x) => Some(x@),
        None => None,
    }
}

/// Pairs each state with the value that will hold its task (see
/// `task_val_view`), in order. Every state must have its task name.
pub fn compute_task_vals(constraints: Vec<ConstraintState>, tasks_dict: &Option<AST>) -> (r: Vec<(AST, ConstraintState)>)
    requires
        forall|i: int| 0 <= i < constraints@.len() ==> (#[trigger] constraints@[i]).task_name is Some,
    ensures
        r@.len() == constraints@.len(),
        forall|i: int| 0 <= i < r@.len() ==> (#[trigger] r@[i]).1 == constraints@[i]
            && r@[i].0@ == task_val_view(opt_ast_view(*tasks_dict), constraints@[i].task_name->0@),
{
    let ghost c0 = constraints@;
    let mut out: Vec<(AST, ConstraintState)> = Vec::new();
    let mut src = constraints;
    let ghost mut i: int = 0;
    while src.len() > 0
        invariant
            0 <= i <= c0.len(),
            src@ == c0.skip(i),
            out@.len() == i,
            forall|k: int| 0 <= k < c0.len() ==> (#[trigger] c0[k]).task_name is Some,
            forall|k: int| 0 <= k < i ==> (#[trigger] out@[k]).1 == c0[k]
                && out@[k].0@ == task_val_view(opt_ast_view(*tasks_dict), c0[k].task_name->0@),
        decreases src@.len(),
    {
        let st = src.remove(0);
        proof {
            assert(st == c0[i]);
        }
        let name = st.get_task_name();
        let ghost nv = name@;
        let val = match tasks_dict {
            None => AST::SimpleIdentifier(SimpleIdentifier::new_wrapped(name)),
            Some(dict) => {
                let lit = AST::StringLiteral(StringLiteral::new_wrapped(name, false));
                proof {
                    assert(lit@ == ASTView::StringLiteral { value: nv, is_sql: false, ancestors: None });
                }
                AST::Subscript(Subscript::new_wrapped(clone_ast(dict), lit, false))
            },
        };
        proof {
            assert(val@ == task_val_view(opt_ast_view(*tasks_dict), c0[i].task_name->0@));
        }
        let ghost o0 = out@;
        out.push((val, st));
        proof {
            assert(out@[i].1 == c0[i]);
            assert(forall|k: int| 0 <= k < i ==> out@[k] == o0[k]);
            i = i + 1;
            assert(src@ =~= c0.skip(i));
        }
    }
    out
}

/// The dictionary of a block's tasks: none for a block of one task, else an
/// identifier `tasks_<name>`.
pub fn init_tasks_dict(block: &Vec<ConstraintState>, constraint_name: &String) -> (r: Option<AST>)
    ensures
        match r {
            None => block@.len() == 1,
            Some(t) => block@.len() != 1 && t@ == tasks_dict_view(constraint_name@),
        },
{
    tasks_dict_for(block.len(), constraint_name)
}

fn tasks_dict_for(n: usize, constraint_name: &String) -> (r: Option<AST>)
    ensures
        match r {
            None => n == 1,
            Some(t) => n != 1 && t@ == tasks_dict_view(constraint_name@),
        },
{
    if n == 1 {
        None
    } else {
        proof {
            reveal_strlit("tasks_");
        }
        let mut name = string_of("tasks_");
        name.append(constraint_name.as_str());
        Some(AST::SimpleIdentifier(SimpleIdentifier::new_wrapped(name)))
    }
}

/// What a satisfied block becomes: its tasks, with the constraint UUIDs each
/// stands for, and the dictionary that holds them.
pub struct ProcessedBlock {
    pub members: Vec<ConstraintState>,
    pub uuid_mappings: Vec<(u128, Vec<u128>)>,
    pub tasks_dict: Option<AST>,
}

/// `r` is what processing the states of a block named `constraint_name`
/// gives: the representatives of its tasks (see `dedup_tasks`), each named
/// (see `named`), with the constraint UUIDs each stands for, and the tasks
/// dictionary unless there is a single task.
pub open spec fn processed_as(r: ProcessedBlock, states: Seq<ConstraintState>, constraint_name: Seq<char>) -> bool {
    let reps = representatives(states, states.len() as int);
    &&& r.members@.len() == reps.len()
    &&& forall|p: int| 0 <= p < r.members@.len() ==> named(#[trigger] r.members@[p], states[reps[p]])
    &&& r.uuid_mappings@.len() == r.members@.len()
    &&& forall|p: int| 0 <= p < r.uuid_mappings@.len() ==> (#[trigger] r.uuid_mappings@[p]).0 == r.members@[p].constraint_uuid
        && r.uuid_mappings@[p].1@ == merged_uuids(states, reps[p], states.len() as int)
    &&& match r.tasks_dict {
        None => r.members@.len() == 1,
        Some(t) => r.members@.len() != 1 && t@ == tasks_dict_view(constraint_name),
    }
}

/// Merges the block's states into tasks (see `dedup_tasks`), names each task
/// (see `shorten_task_names`), and gives the block its tasks dictionary
/// (see `init_tasks_dict`) unless it has a single task.
pub fn merge_constraint_block(states: Vec<ConstraintState>, constraint_name: &String) -> (r: ProcessedBlock)
    ensures
        processed_as(r, states@, constraint_name@),
{
    let (mut members, uuid_mappings) = dedup_tasks(states);
    let ghost m0 = members@;
    shorten_task_names(&mut members);
    let tasks_dict = tasks_dict_for(members.len(), constraint_name);
    proof {
        assert forall|p: int| 0 <= p < uuid_mappings@.len() implies (#[trigger] uuid_mappings@[p]).0 == members@[p].constraint_uuid by {
            assert(named(members@[p], m0[p]));
        }
    }
    ProcessedBlock { members, uuid_mappings, tasks_dict }
}

/// The state has a Python program that needs the pip package `x`.
pub open spec fn needs_package(st: ConstraintState, x: Seq<char>) -> bool {
    match st.dialect_view() {
        Some(DialectView::Python(reqs)) => reqs.contains(x),
        _ => false,
    }
}

/// The pip packages that the states with a Python program need.
pub open spec fn python_requirements(s: Seq<ConstraintState>) -> Set<Seq<char>> {
    Set::new(|x: Seq<char>| exists|i: int| 0 <= i < s.len() && needs_package(#[trigger] s[i], x))
}

/// The pip packages that the satisfied constraints need, each once, in
/// increasing order.
pub fn get_dependencies(states: &Vec<ConstraintState>) -> (r: Vec<String>)
    ensures
        strictly_sorted(texts(r@)),
        texts(r@).to_set() == python_requirements(states@),
{
    let mut out: Vec<String> = Vec::new();
    let mut i: usize = 0;
    proof {
        assert(texts(out@).to_set() =~= python_requirements(states@.take(0)));
    }
    while i < states.len()
        invariant
            i <= states@.len(),
            strictly_sorted(texts(out@)),
            texts(out@).to_set() == python_requirements(states@.take(i as int)),
        decreases states@.len() - i,
    {
        let ghost before = texts(out@).to_set();
        let ghost pre = states@.take(i as int);
        let ghost post = states@.take(i as int + 1);
        match &states[i].dialect {
            Some(Dialect::Python(p)) => {
                let reqs = p.get_pip_requirements();
                let mut j: usize = 0;
                while j < reqs.len()
                    invariant
                        j <= reqs@.len(),
                        strictly_sorted(texts(out@)),
                        texts(out@).to_set() == before.union(texts(reqs@.take(j as int)).to_set()),
                    decreases reqs@.len() - j,
                {
                    let ghost o0 = texts(out@).to_set();
                    sorted_insert(&mut out, reqs[j].clone());
                    proof {
                        let a = texts(reqs@.take(j as int + 1));
                        let b = texts(reqs@.take(j as int));
                        assert(a =~= b.push(reqs@[j as int]@));
                        b.lemma_push_to_set_commute(reqs@[j as int]@);
                        assert(texts(out@).to_set() =~= before.union(a.to_set()));
                    }
                    j = j + 1;
                }
                proof {
                    assert(reqs@.take(j as int) =~= reqs@);
                    assert forall|x: Seq<char>| python_requirements(post).contains(x) <==> texts(out@).to_set().contains(x) by {
                        if python_requirements(post).contains(x) {
                            let k = choose|k: int| 0 <= k < post.len() && needs_package(#[trigger] post[k], x);
                            if k < i {
                                assert(pre[k] == post[k]);
                                assert(python_requirements(pre).contains(x));
                            }
                        }
                        if before.contains(x) {
                            let k = choose|k: int| 0 <= k < pre.len() && needs_package(#[trigger] pre[k], x);
                            assert(post[k] == pre[k]);
                        }
                        if texts(reqs@).to_set().contains(x) {
                            assert(post[i as int] == states@[i as int]);
                        }
                    }
                    assert(texts(out@).to_set() =~= python_requirements(post));
                }
            },
            _ => {
                proof {
                    assert forall|x: Seq<char>| python_requirements(post).contains(x) <==> python_requirements(pre).contains(x) by {
                        if python_requirements(post).contains(x) {
                            let k = choose|k: int| 0 <= k < post.len() && needs_package(#[trigger] post[k], x);
                            if k < i {
                                assert(pre[k] == post[k]);
                            } else {
                                assert(post[k] == states@[i as int]);
                            }
                        }
                        if python_requirements(pre).contains(x) {
                            let k = choose|k: int| 0 <= k < pre.len() && needs_package(#[trigger] pre[k], x);
                            assert(post[k] == pre[k]);
                        }
                    }
                    assert(python_requirements(post) =~= python_requirements(pre));
                }
            },
        }
        i = i + 1;
    }
    proof {
        assert(states@.take(i as int) =~= states@);
    }
    out
}

} // verus!
