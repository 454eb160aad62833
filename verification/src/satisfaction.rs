//! Satisfying the constraints block by block: each constraint gets its task
//! key and, where it needs one, the code and context that its program
//! computed for it; every constraint that waits for it learns that it is
//! satisfied, and its context joins theirs.
use vstd::prelude::*;
use crate::ancestor_record::TaskId;
use crate::access::strs_view;
use crate::blocks::{
    UnsatisfiedBlock, without, blocks_view, find_satisfiable_constraint_block, first_ready_from,
    lemma_first_ready, lemma_schedule_after_dependencies, names_unique, release, schedule,
};
use crate::strings::{snake_case, str_eq, to_snake_case};
use crate::task_blocks::{ProcessedBlock, merge_constraint_block, processed_as};
use crate::ancestor_record::{opt_string_view, records_view};
use crate::ast::asts_view;
use crate::constraint_state::{
    ComputedArgs, ConstraintState, ParameterTuple, Program, SatisfiedDependency, chosen_dialect, computed_into, best_program, dialects_view,
    opt_args_view, opt_kwargs_view, program_dialects, task_key,
};
use crate::dialect::Dialect;
use crate::ancestry::{lemma_lookup_from, lookup_from};
use crate::ast::{ASTView, KeywordMap};
use crate::context::compatible;
use crate::linked::{name_set_insert, name_set_items, name_set_new};
use linked_hash_set::LinkedHashSet;
use std::collections::hash_map::RandomState;
use crate::task_graph::{
    IdView, all_wf, dangling_closure, derived_from, graph_view, key_of, keys_unique, lemma_retain_ids,
    lemma_retain_ids_compose, prune, remove_dangling_dummy_tasks, remove_superfluous,
    remove_superfluous_dummy_tasks, retain_ids, superfluous_safe,
};

verus! {

/// Retaining nothing that occurs changes nothing.
pub proof fn lemma_retain_disjoint(s: Seq<IdView>, rm: Set<IdView>)
    requires
        forall|i: int| 0 <= i < s.len() ==> !rm.contains(#[trigger] s[i]),
    ensures
        retain_ids(s, rm) == s,
    decreases s.len(),
{
    if s.len() > 0 {
        lemma_retain_disjoint(s.drop_last(), rm);
        assert(s.drop_last().push(s.last()) =~= s);
    }
}


/// The position of the first entry of `table`, from `from` on, for the
/// state with id `k`; -1 when there is none.
pub open spec fn computed_index(table: Seq<(TaskId, ComputedArgs)>, k: IdView, from: int) -> int
    decreases table.len() - from,
{
    if from < 0 || from >= table.len() {
        -1
    } else if table[from].0@ == k {
        from
    } else {
        computed_index(table, k, from + 1)
    }
}

/// The table holds what a program computed for the state with id `k`.
pub open spec fn has_computed(table: Seq<(TaskId, ComputedArgs)>, k: IdView) -> bool {
    0 <= computed_index(table, k, 0) < table.len()
}

/// What a program computed for the state with id `k`: its first entry.
pub open spec fn computed_for(table: Seq<(TaskId, ComputedArgs)>, k: IdView) -> ComputedArgs {
    table[computed_index(table, k, 0)].1
}

/// In the initial blocks `bs0`, the constraint `x` waits for `y`.
pub open spec fn direct(bs0: Seq<UnsatisfiedBlock>, x: IdView, y: IdView) -> bool {
    exists|j: int, k: int| valid_at(bs0, j, k) && key_of(#[trigger] state_at(bs0, j, k)) == x
        && state_at(bs0, j, k).pending().contains(y)
}

/// `x` waits for `y` through a chain of at most `n` constraints, none of
/// which, between the two, needs a program.
pub open spec fn reach(bs0: Seq<UnsatisfiedBlock>, x: IdView, y: IdView, n: nat) -> bool
    decreases n,
{
    if n == 0 {
        false
    } else {
        direct(bs0, x, y) || exists|z: IdView| #[trigger] direct(bs0, x, z) && !program_state(bs0, z)
            && reach(bs0, z, y, (n - 1) as nat)
    }
}

/// The context of `y` flows into that of `x`: `x` waits for `y`, directly
/// or through constraints without a program (a program's context takes the
/// place of the one it was given, so a chain ends at the first program).
pub open spec fn upstream(bs0: Seq<UnsatisfiedBlock>, x: IdView, y: IdView) -> bool {
    exists|n: nat| #[trigger] reach(bs0, x, y, n)
}

/// Where the bindings of the context of `x` come from: once `x` is
/// satisfied (`itself`) and needs a program, from what its program
/// computed; otherwise from what was computed for the constraints whose
/// contexts flow into it (see `upstream`).
pub open spec fn source(bs0: Seq<UnsatisfiedBlock>, x: IdView, y: IdView, itself: bool) -> bool {
    if itself && program_state(bs0, x) {
        y == x
    } else {
        upstream(bs0, x, y)
    }
}

/// `y` is the id of a constraint of `bs0` that needs a program.
pub open spec fn program_state(bs0: Seq<UnsatisfiedBlock>, y: IdView) -> bool {
    exists|j: int, k: int| valid_at(bs0, j, k) && key_of(#[trigger] state_at(bs0, j, k)) == y
        && state_at(bs0, j, k).requires_program
}

/// Each binding of `m` is one of the context that a program computed for a
/// constraint it comes from (see `source`).
pub open spec fn ctx_from(
    m: Map<Seq<char>, Seq<char>>,
    bs0: Seq<UnsatisfiedBlock>,
    table: Seq<(TaskId, ComputedArgs)>,
    x: IdView,
    itself: bool,
) -> bool {
    forall|k: Seq<char>| #[trigger] m.contains_key(k) ==> exists|y: IdView|
        source(bs0, x, y, itself) && program_state(bs0, y)
            && computed_for(table, y).context@.contains_key(k) && computed_for(table, y).context@[k] == m[k]
}

/// The contexts that meet agree: for each constraint, the contexts that
/// programs computed for the constraints whose contexts flow into its own
/// (see `upstream`) agree on the keys they share. Every computed context is
/// well formed.
pub open spec fn contexts_agree(bs0: Seq<UnsatisfiedBlock>, table: Seq<(TaskId, ComputedArgs)>) -> bool {
    &&& forall|i: int| 0 <= i < table.len() ==> (#[trigger] table[i]).1.context.wf()
    &&& forall|x: IdView, y1: IdView, y2: IdView|
        #![trigger upstream(bs0, x, y1), upstream(bs0, x, y2)]
        upstream(bs0, x, y1) && upstream(bs0, x, y2) && program_state(bs0, y1) && program_state(bs0, y2)
        ==> compatible(computed_for(table, y1).context@, computed_for(table, y2).context@)
}

/// Flowing carries over: if `x` waits for `d`, the context of `d` flows
/// into that of `x`, and so does every context that flows into that of `d`
/// when `d` needs no program.
proof fn lemma_upstream_step(bs0: Seq<UnsatisfiedBlock>, x: IdView, d: IdView, y: IdView)
    requires
        direct(bs0, x, d),
        y == d || (upstream(bs0, d, y) && !program_state(bs0, d)),
    ensures
        upstream(bs0, x, y),
{
    if y == d {
        assert(reach(bs0, x, y, 1));
    } else {
        let n = choose|n: nat| #[trigger] reach(bs0, d, y, n);
        assert(reach(bs0, x, y, n + 1));
    }
}

/// Merging the context `b` of a constraint `d` that `x` waits for into the
/// context `a` of `x` meets no disagreement, and the merged context is
/// again made of what the constraints `x` waits for computed.
proof fn lemma_ctx_merge(
    a: Map<Seq<char>, Seq<char>>,
    b: Map<Seq<char>, Seq<char>>,
    bs0: Seq<UnsatisfiedBlock>,
    table: Seq<(TaskId, ComputedArgs)>,
    x: IdView,
    d: IdView,
)
    requires
        contexts_agree(bs0, table),
        direct(bs0, x, d),
        ctx_from(a, bs0, table, x, false),
        ctx_from(b, bs0, table, d, true),
    ensures
        compatible(a, b),
        ctx_from(a.union_prefer_right(b), bs0, table, x, false),
{
    assert forall|k: Seq<char>| a.contains_key(k) && b.contains_key(k) implies a[k] == b[k] by {
        let y1 = choose|y: IdView| source(bs0, x, y, false) && program_state(bs0, y)
            && computed_for(table, y).context@.contains_key(k) && computed_for(table, y).context@[k] == a[k];
        let y2 = choose|y: IdView| source(bs0, d, y, true) && program_state(bs0, y)
            && computed_for(table, y).context@.contains_key(k) && computed_for(table, y).context@[k] == b[k];
        lemma_upstream_step(bs0, x, d, y2);
        assert(compatible(computed_for(table, y1).context@, computed_for(table, y2).context@));
    }
    let u = a.union_prefer_right(b);
    assert forall|k: Seq<char>| #[trigger] u.contains_key(k) implies exists|y: IdView|
        source(bs0, x, y, false) && program_state(bs0, y)
            && computed_for(table, y).context@.contains_key(k) && computed_for(table, y).context@[k] == u[k] by {
        if b.contains_key(k) {
            let y2 = choose|y: IdView| source(bs0, d, y, true) && program_state(bs0, y)
                && computed_for(table, y).context@.contains_key(k) && computed_for(table, y).context@[k] == b[k];
            lemma_upstream_step(bs0, x, d, y2);
            assert(u[k] == b[k]);
        } else {
            assert(a.contains_key(k));
            assert(u[k] == a[k]);
        }
    }
}

proof fn lemma_computed_index(table: Seq<(TaskId, ComputedArgs)>, k: IdView, from: int)
    requires
        0 <= from,
    ensures
        computed_index(table, k, from) == -1 || (from <= computed_index(table, k, from) < table.len()
            && table[computed_index(table, k, from)].0@ == k),
    decreases table.len() - from,
{
    if from < table.len() && table[from].0@ != k {
        lemma_computed_index(table, k, from + 1);
    }
}

/// The position of what a program computed for the state with id `k`.
fn find_computed(table: &Vec<(TaskId, ComputedArgs)>, k: &TaskId) -> (r: Option<usize>)
    ensures
        match r {
            Some(i) => i as int == computed_index(table@, k@, 0) && has_computed(table@, k@),
            None => !has_computed(table@, k@),
        },
{
    let mut i: usize = 0;
    while i < table.len()
        invariant
            i <= table@.len(),
            computed_index(table@, k@, 0) == computed_index(table@, k@, i as int),
        decreases table@.len() - i,
    {
        if table[i].0.uuid == k.uuid && str_eq(table[i].0.object_type.as_str(), k.object_type.as_str()) {
            return Some(i);
        }
        i = i + 1;
    }
    None
}

/// `new` is `old` once the constraint `x` (whose constraint UUID is `uuid`)
/// is satisfied: if `old` waited for `x`, `x` is no longer pending, is
/// recorded last among its satisfied dependencies, and its context `ctx`
/// joins `old`'s; otherwise nothing changes.
pub open spec fn marked_by(new: ConstraintState, old: ConstraintState, x: IdView, uuid: u128, ctx: Map<Seq<char>, Seq<char>>) -> bool {
    if old.pending().contains(x) {
        &&& new.wf()
        &&& new.pending() == retain_ids(old.pending(), set![x])
        &&& new.satisfied_dependencies@.len() == old.satisfied_dependencies@.len() + 1
        &&& new.satisfied_dependencies@.take(old.satisfied_dependencies@.len() as int) == old.satisfied_dependencies@
        &&& new.satisfied_dependencies@.last().id@ == x
        &&& new.satisfied_dependencies@.last().constraint_uuid == uuid
        &&& new.context@ == old.context@.union_prefer_right(ctx)
        &&& new.name == old.name
        &&& new.key == old.key
        &&& new.task_name == old.task_name
        &&& new.dialect == old.dialect
        &&& new.preamble == old.preamble
        &&& new.call == old.call
        &&& new.params == old.params
        &&& new.satisfied == old.satisfied
        &&& new.constraint_uuid == old.constraint_uuid
        &&& new.requires_program == old.requires_program
        &&& new.root_uuid == old.root_uuid
        &&& new.root_type == old.root_type
        &&& new.root_tag == old.root_tag
        &&& new.ancestors == old.ancestors
    } else {
        new == old
    }
}

/// A waiting state is well formed, each binding of its context is one that
/// a program computed for a constraint it waits for (see `ctx_from`), and
/// it waits only for constraints it waited for in `bs0`.
pub open spec fn state_ok(s: ConstraintState, table: Seq<(TaskId, ComputedArgs)>, bs0: Seq<UnsatisfiedBlock>) -> bool {
    &&& s.wf()
    &&& ctx_from(s.context@, bs0, table, key_of(s), false)
    &&& forall|z: IdView| #[trigger] s.pending().contains(z) ==> direct(bs0, key_of(s), z)
}

/// Every state of every block is ok (see `state_ok`).
pub open spec fn blocks_ok(bs: Seq<UnsatisfiedBlock>, table: Seq<(TaskId, ComputedArgs)>, bs0: Seq<UnsatisfiedBlock>) -> bool {
    forall|j: int, k: int|
        0 <= j < bs.len() && 0 <= k < bs[j].constraints@.len() ==> state_ok(#[trigger] bs[j].constraints@[k], table, bs0)
}

/// Tells the states of the blocks that the constraint `dep` (whose id is
/// `id`) is satisfied (see `marked_by`).
pub fn mark_dependents(
    dep: &ConstraintState,
    id: &TaskId,
    remaining: &mut Vec<UnsatisfiedBlock>,
    table: &Vec<(TaskId, ComputedArgs)>,
    bs0: Ghost<Seq<UnsatisfiedBlock>>,
)
    requires
        dep.context.wf(),
        ctx_from(dep.context@, bs0@, table@, id@, true),
        contexts_agree(bs0@, table@),
        blocks_ok(old(remaining)@, table@, bs0@),
    ensures
        blocks_ok(final(remaining)@, table@, bs0@),
        final(remaining)@.len() == old(remaining)@.len(),
        forall|j: int| 0 <= j < final(remaining)@.len() ==> (#[trigger] final(remaining)@[j]).name == old(remaining)@[j].name
            && final(remaining)@[j].dependency_names == old(remaining)@[j].dependency_names
            && final(remaining)@[j].constraints@.len() == old(remaining)@[j].constraints@.len(),
        forall|j: int, k: int| 0 <= j < final(remaining)@.len() && 0 <= k < final(remaining)@[j].constraints@.len()
            ==> marked_by(#[trigger] final(remaining)@[j].constraints@[k], old(remaining)@[j].constraints@[k], id@, dep.constraint_uuid, dep.context@),
{
    let ghost r0 = remaining@;
    let mut j: usize = 0;
    while j < remaining.len()
        invariant
            remaining@.len() == r0.len(),
            j <= r0.len(),
            dep.context.wf(),
            ctx_from(dep.context@, bs0@, table@, id@, true),
            contexts_agree(bs0@, table@),
            blocks_ok(r0, table@, bs0@),
            blocks_ok(remaining@, table@, bs0@),
            forall|p: int| j <= p < r0.len() ==> #[trigger] remaining@[p] == r0[p],
            forall|p: int| 0 <= p < j ==> (#[trigger] remaining@[p]).name == r0[p].name
                && remaining@[p].dependency_names == r0[p].dependency_names
                && remaining@[p].constraints@.len() == r0[p].constraints@.len(),
            forall|p: int, k: int| 0 <= p < j && 0 <= k < remaining@[p].constraints@.len()
                ==> marked_by(#[trigger] remaining@[p].constraints@[k], r0[p].constraints@[k], id@, dep.constraint_uuid, dep.context@),
        decreases r0.len() - j,
    {
        let mut b = remaining.remove(j);
        let ghost b0 = b;
        proof {
            assert(b0 == r0[j as int]);
        }
        let mut k: usize = 0;
        while k < b.constraints.len()
            invariant
                b.constraints@.len() == b0.constraints@.len(),
                k <= b0.constraints@.len(),
                b.name == b0.name,
                b.dependency_names == b0.dependency_names,
                dep.context.wf(),
                ctx_from(dep.context@, bs0@, table@, id@, true),
                contexts_agree(bs0@, table@),
                forall|q: int| 0 <= q < b0.constraints@.len() ==> state_ok(#[trigger] b0.constraints@[q], table@, bs0@),
                forall|q: int| k <= q < b0.constraints@.len() ==> #[trigger] b.constraints@[q] == b0.constraints@[q],
                forall|q: int| 0 <= q < k ==> marked_by(#[trigger] b.constraints@[q], b0.constraints@[q], id@, dep.constraint_uuid, dep.context@),
                forall|q: int| 0 <= q < b.constraints@.len() ==> state_ok(#[trigger] b.constraints@[q], table@, bs0@),
            decreases b0.constraints@.len() - k,
        {
            let mut t = b.constraints.remove(k);
            let ghost t0 = t;
            proof {
                assert(t0 == b0.constraints@[k as int]);
            }
            let pending = crate::task_graph::contains_pending(&t, id);
            if pending {
                proof {
                    assert(state_ok(t0, table@, bs0@));
                    assert(t0.pending().contains(id@));
                    lemma_ctx_merge(t0.context@, dep.context@, bs0@, table@, key_of(t0), id@);
                }
                t.mark_dependency_as_satisfied(dep, id);
                proof {
                    crate::task_graph::lemma_retain_ids(t0.pending(), set![id@]);
                    assert forall|z: IdView| #[trigger] t.pending().contains(z) implies direct(bs0@, key_of(t), z) by {
                        assert(t0.pending().contains(z));
                    }
                    assert(state_ok(t, table@, bs0@));
                    assert(t.satisfied_dependencies@.take(t0.satisfied_dependencies@.len() as int) =~= t0.satisfied_dependencies@);
                }
            }
            let ghost before = b.constraints@;
            b.constraints.insert(k, t);
            proof {
                assert forall|q: int| k + 1 <= q < b0.constraints@.len() implies #[trigger] b.constraints@[q] == b0.constraints@[q] by {
                    assert(b.constraints@[q] == before[q - 1]);
                }
                assert forall|q: int| 0 <= q < k + 1 implies marked_by(#[trigger] b.constraints@[q], b0.constraints@[q], id@, dep.constraint_uuid, dep.context@) by {
                    if q < k {
                        assert(b.constraints@[q] == before[q]);
                    }
                }
                assert forall|q: int| 0 <= q < b.constraints@.len() implies state_ok(#[trigger] b.constraints@[q], table@, bs0@) by {
                    if q < k {
                        assert(b.constraints@[q] == before[q]);
                    } else if q > k {
                        assert(b.constraints@[q] == before[q - 1]);
                    }
                }
            }
            k = k + 1;
        }
        let ghost before = remaining@;
        remaining.insert(j, b);
        proof {
            assert forall|p: int| j + 1 <= p < r0.len() implies #[trigger] remaining@[p] == r0[p] by {
                assert(remaining@[p] == before[p - 1]);
            }
            assert forall|p: int| 0 <= p < j + 1 implies (#[trigger] remaining@[p]).name == r0[p].name
                && remaining@[p].dependency_names == r0[p].dependency_names
                && remaining@[p].constraints@.len() == r0[p].constraints@.len() by {
                if p < j {
                    assert(remaining@[p] == before[p]);
                }
            }
            assert forall|p: int, q: int| 0 <= p < j + 1 && 0 <= q < remaining@[p].constraints@.len()
                implies marked_by(#[trigger] remaining@[p].constraints@[q], r0[p].constraints@[q], id@, dep.constraint_uuid, dep.context@) by {
                if p < j {
                    assert(remaining@[p] == before[p]);
                }
            }
            assert forall|p: int, q: int| 0 <= p < remaining@.len() && 0 <= q < remaining@[p].constraints@.len()
                implies state_ok(#[trigger] remaining@[p].constraints@[q], table@, bs0@) by {
                if p < j {
                    assert(remaining@[p] == before[p]);
                } else if p > j {
                    assert(remaining@[p] == before[p - 1]);
                    assert(remaining@[p] == r0[p]);
                }
            }
        }
        j = j + 1;
    }
}

/// The state holds what a program computed for it (see `computed_for`):
/// its code and its context.
pub open spec fn has_program(s: ConstraintState, table: Seq<(TaskId, ComputedArgs)>) -> bool {
    computed_into(s, computed_for(table, key_of(s)))
}

/// A state that is ready to be processed: well formed, not satisfied, with
/// nothing pending and a context whose bindings a program computed, and,
/// when it needs a program, with one to choose and with what it computed.
pub open spec fn ready(
    s: ConstraintState,
    preferences: Seq<Dialect>,
    programs: Seq<Program>,
    table: Seq<(TaskId, ComputedArgs)>,
    bs0: Seq<UnsatisfiedBlock>,
) -> bool {
    &&& s.wf()
    &&& !s.satisfied
    &&& s.pending().len() == 0
    &&& ctx_from(s.context@, bs0, table, key_of(s), false)
    &&& s.requires_program ==> best_program(dialects_view(preferences), program_dialects(programs)) is Some
        && has_computed(table, key_of(s))
        && computed_for(table, key_of(s)).dialect@ == chosen_dialect(preferences, programs)
    &&& s.requires_program == program_state(bs0, key_of(s))
}

/// `new` is `old` processed: satisfied, with its task key, and with what
/// its program computed when it needs one; nothing else changes.
pub open spec fn processed(new: ConstraintState, old: ConstraintState, table: Seq<(TaskId, ComputedArgs)>) -> bool {
    &&& new.wf()
    &&& new.satisfied
    &&& new.pending().len() == 0
    &&& opt_string_view(new.key) == Some(task_key(opt_string_view(old.root_tag), records_view(old.ancestors@)))
    &&& (if old.requires_program {
        has_program(new, table)
    } else {
        &&& new.dialect == old.dialect
        &&& new.preamble == old.preamble
        &&& new.call == old.call
        &&& new.params == old.params
        &&& new.context == old.context
    })
    &&& new.name == old.name
    &&& new.task_name == old.task_name
    &&& new.satisfied_dependencies == old.satisfied_dependencies
    &&& new.constraint_uuid == old.constraint_uuid
    &&& new.requires_program == old.requires_program
    &&& new.root_uuid == old.root_uuid
    &&& new.root_type == old.root_type
    &&& new.root_tag == old.root_tag
    &&& new.ancestors == old.ancestors
}

/// Processes one constraint: computes its task key; when it needs a
/// program, takes what the program chosen by preference computed for it
/// (its entry in `table`, see `computed_for`) and records its call in
/// `calls` (see `record_call`); tells the states of the
/// remaining blocks that it is satisfied (its context joins theirs); and
/// marks it satisfied. A state that is already satisfied, still waits for
/// something, or finds no program is a fatal error, and so are two contexts
/// that bind a key to two values; those inputs are excluded.
pub fn process_constraint_state(
    state: &mut ConstraintState,
    calls: &mut Vec<((String, String, String), Vec<(String, ParameterTuple)>)>,
    remaining: &mut Vec<UnsatisfiedBlock>,
    preferences: &Vec<Dialect>,
    programs: &Vec<Program>,
    table: &Vec<(TaskId, ComputedArgs)>,
    bs0: Ghost<Seq<UnsatisfiedBlock>>,
)
    requires
        ready(*old(state), preferences@, programs@, table@, bs0@),
        contexts_agree(bs0@, table@),
        blocks_ok(old(remaining)@, table@, bs0@),
    ensures
        processed(*final(state), *old(state), table@),
        calls_view(final(calls)@) == if old(state).requires_program {
            group_push(calls_view(old(calls)@), call_key(*final(state)), call_item(*final(state)))
        } else {
            calls_view(old(calls)@)
        },
        blocks_ok(final(remaining)@, table@, bs0@),
        final(remaining)@.len() == old(remaining)@.len(),
        forall|j: int| 0 <= j < final(remaining)@.len() ==> (#[trigger] final(remaining)@[j]).name == old(remaining)@[j].name
            && final(remaining)@[j].dependency_names == old(remaining)@[j].dependency_names
            && final(remaining)@[j].constraints@.len() == old(remaining)@[j].constraints@.len(),
        forall|j: int, k: int| 0 <= j < final(remaining)@.len() && 0 <= k < final(remaining)@[j].constraints@.len()
            ==> marked_by(#[trigger] final(remaining)@[j].constraints@[k], old(remaining)@[j].constraints@[k], key_of(*old(state)), old(state).constraint_uuid, final(state).context@),
{
    state.compute_task_key();
    if state.requires_program {
        let id = TaskId::new(state.constraint_uuid, state.root_type.clone());
        match find_computed(table, &id) {
            Some(i) => {
                proof {
                    lemma_computed_index(table@, id@, 0);
                    assert(table@[i as int].1.context.wf());
                }
                state.satisfy(preferences, programs, &table[i].1);
                proof {
                    assert(state.context@ == computed_for(table@, key_of(*old(state))).context@);
                    assert forall|k: Seq<char>| #[trigger] state.context@.contains_key(k) implies exists|y: IdView|
                        source(bs0@, id@, y, true) && program_state(bs0@, y)
                            && computed_for(table@, y).context@.contains_key(k) && computed_for(table@, y).context@[k] == state.context@[k] by {
                        assert(program_state(bs0@, id@));
                    }
                }
                record_call(calls, state);
            },
            None => {},
        }
    }
    let id = TaskId::new(state.constraint_uuid, state.root_type.clone());
    proof {
        assert(ctx_from(state.context@, bs0@, table@, id@, true));
    }
    mark_dependents(state, &id, remaining, table, bs0);
    state.satisfied = true;
}

/// The satisfied dependencies, by value: each one's id and constraint UUID.
pub open spec fn dep_entries(s: Seq<SatisfiedDependency>) -> Seq<(IdView, u128)> {
    s.map_values(|d: SatisfiedDependency| (d.id@, d.constraint_uuid))
}

/// The states, by value: each one's id and constraint UUID.
pub open spec fn entries_of(states: Seq<ConstraintState>) -> Seq<(IdView, u128)> {
    states.map_values(|s: ConstraintState| (key_of(s), s.constraint_uuid))
}

/// The ids among the entries.
pub open spec fn entry_ids(es: Seq<(IdView, u128)>) -> Set<IdView> {
    Set::new(|x: IdView| exists|i: int| 0 <= i < es.len() && es[i].0 == x)
}

/// The entries, in order, whose id is pending.
pub open spec fn waited(es: Seq<(IdView, u128)>, pending: Seq<IdView>) -> Seq<(IdView, u128)>
    decreases es.len(),
{
    if es.len() == 0 {
        es
    } else {
        let r = waited(es.drop_last(), pending);
        if pending.contains(es.last().0) {
            r.push(es.last())
        } else {
            r
        }
    }
}

/// `new` is `old` once the constraints of `es` are satisfied, in order:
/// those it waited for are no longer pending and are recorded, in that
/// order, after its earlier satisfied dependencies; only its context may
/// change besides (the contexts of those constraints join it).
pub open spec fn progressed(new: ConstraintState, old: ConstraintState, es: Seq<(IdView, u128)>) -> bool {
    &&& new.wf()
    &&& new.pending() == retain_ids(old.pending(), entry_ids(es))
    &&& dep_entries(new.satisfied_dependencies@) == dep_entries(old.satisfied_dependencies@) + waited(es, old.pending())
    &&& new.name == old.name
    &&& new.key == old.key
    &&& new.task_name == old.task_name
    &&& new.dialect == old.dialect
    &&& new.preamble == old.preamble
    &&& new.call == old.call
    &&& new.params == old.params
    &&& new.satisfied == old.satisfied
    &&& new.constraint_uuid == old.constraint_uuid
    &&& new.requires_program == old.requires_program
    &&& new.root_uuid == old.root_uuid
    &&& new.root_type == old.root_type
    &&& new.root_tag == old.root_tag
    &&& new.ancestors == old.ancestors
}

/// No id occurs twice among the entries.
pub open spec fn entry_ids_unique(es: Seq<(IdView, u128)>) -> bool {
    forall|i: int, j: int| 0 <= i < es.len() && 0 <= j < es.len() && i != j ==> es[i].0 != es[j].0
}

proof fn lemma_progressed_start(old: ConstraintState)
    requires
        old.wf(),
    ensures
        progressed(old, old, Seq::empty()),
{
    let e = Seq::<(IdView, u128)>::empty();
    assert(entry_ids(e) =~= Set::<IdView>::empty());
    lemma_retain_disjoint(old.pending(), Set::empty());
    assert(dep_entries(old.satisfied_dependencies@) + waited(e, old.pending()) =~= dep_entries(old.satisfied_dependencies@));
}

proof fn lemma_progressed_step(new: ConstraintState, mid: ConstraintState, old: ConstraintState, es: Seq<(IdView, u128)>, x: IdView, u: u128, c: Map<Seq<char>, Seq<char>>)
    requires
        progressed(mid, old, es),
        marked_by(new, mid, x, u, c),
        !entry_ids(es).contains(x),
    ensures
        progressed(new, old, es.push((x, u))),
{
    let es2 = es.push((x, u));
    assert(es2.drop_last() =~= es);
    assert(entry_ids(es2) =~= entry_ids(es).union(set![x])) by {
        assert forall|y: IdView| entry_ids(es2).contains(y) <==> entry_ids(es).union(set![x]).contains(y) by {
            if entry_ids(es2).contains(y) {
                let i = choose|i: int| 0 <= i < es2.len() && es2[i].0 == y;
                if i < es.len() {
                    assert(es[i].0 == y);
                }
            }
            if entry_ids(es).contains(y) {
                let i = choose|i: int| 0 <= i < es.len() && es[i].0 == y;
                assert(es2[i].0 == y);
            }
            if y == x {
                assert(es2[es.len() as int].0 == y);
            }
        }
    }
    lemma_retain_ids(old.pending(), entry_ids(es));
    lemma_retain_ids_compose(old.pending(), entry_ids(es), set![x]);
    let mp = retain_ids(old.pending(), entry_ids(es));
    assert(mp.contains(x) == old.pending().contains(x));
    if mid.pending().contains(x) {
        assert(waited(es2, old.pending()) == waited(es, old.pending()).push((x, u)));
        assert(dep_entries(new.satisfied_dependencies@) =~= dep_entries(mid.satisfied_dependencies@).push((x, u))) by {
            let a = new.satisfied_dependencies@;
            let b = mid.satisfied_dependencies@;
            assert forall|i: int| 0 <= i < b.len() implies a[i] == b[i] by {
                assert(a.take(b.len() as int)[i] == a[i]);
            }
            assert(a[a.len() - 1] == a.last());
        }
    } else {
        assert(waited(es2, old.pending()) == waited(es, old.pending()));
        assert forall|i: int| 0 <= i < mp.len() implies !set![x].contains(#[trigger] mp[i]) by {
            assert(mp.contains(mp[i]));
        }
        lemma_retain_disjoint(mp, set![x]);
    }
}

/// Processes the states of a block in order (see `process_constraint_state`),
/// recording in `calls` the calls of those that need a program. Every state
/// of the remaining blocks learns, in that order, of those it waited for
/// (see `progressed`).
pub fn satisfy_block_states(
    block: &mut Vec<ConstraintState>,
    calls: &mut Vec<((String, String, String), Vec<(String, ParameterTuple)>)>,
    remaining: &mut Vec<UnsatisfiedBlock>,
    preferences: &Vec<Dialect>,
    programs: &Vec<Program>,
    table: &Vec<(TaskId, ComputedArgs)>,
    bs0: Ghost<Seq<UnsatisfiedBlock>>,
)
    requires
        forall|i: int| 0 <= i < old(block)@.len() ==> ready(#[trigger] old(block)@[i], preferences@, programs@, table@, bs0@),
        entry_ids_unique(entries_of(old(block)@)),
        contexts_agree(bs0@, table@),
        blocks_ok(old(remaining)@, table@, bs0@),
    ensures
        final(block)@.len() == old(block)@.len(),
        forall|i: int| 0 <= i < final(block)@.len() ==> processed(#[trigger] final(block)@[i], old(block)@[i], table@),
        calls_view(final(calls)@) == calls_after(calls_view(old(calls)@), final(block)@),
        blocks_ok(final(remaining)@, table@, bs0@),
        final(remaining)@.len() == old(remaining)@.len(),
        forall|j: int| 0 <= j < final(remaining)@.len() ==> (#[trigger] final(remaining)@[j]).name == old(remaining)@[j].name
            && final(remaining)@[j].dependency_names == old(remaining)@[j].dependency_names
            && final(remaining)@[j].constraints@.len() == old(remaining)@[j].constraints@.len(),
        forall|j: int, k: int| 0 <= j < final(remaining)@.len() && 0 <= k < final(remaining)@[j].constraints@.len()
            ==> progressed(#[trigger] final(remaining)@[j].constraints@[k], old(remaining)@[j].constraints@[k], entries_of(old(block)@)),
{
    let ghost b0 = block@;
    let ghost r0 = remaining@;
    let ghost es = entries_of(b0);
    let ghost c0 = calls_view(calls@);
    proof {
        assert(block@.take(0) =~= Seq::<ConstraintState>::empty());
        assert forall|j: int, k: int| 0 <= j < r0.len() && 0 <= k < r0[j].constraints@.len()
            implies progressed(#[trigger] remaining@[j].constraints@[k], r0[j].constraints@[k], es.take(0)) by {
            assert(es.take(0) =~= Seq::<(IdView, u128)>::empty());
            lemma_progressed_start(r0[j].constraints@[k]);
        }
    }
    let mut i: usize = 0;
    while i < block.len()
        invariant
            block@.len() == b0.len(),
            i <= b0.len(),
            es == entries_of(b0),
            entry_ids_unique(es),
            forall|p: int| i <= p < b0.len() ==> #[trigger] block@[p] == b0[p],
            forall|p: int| 0 <= p < b0.len() ==> ready(#[trigger] b0[p], preferences@, programs@, table@, bs0@),
            forall|p: int| 0 <= p < i ==> processed(#[trigger] block@[p], b0[p], table@),
            calls_view(calls@) == calls_after(c0, block@.take(i as int)),
            contexts_agree(bs0@, table@),
            blocks_ok(remaining@, table@, bs0@),
            remaining@.len() == r0.len(),
            forall|j: int| 0 <= j < remaining@.len() ==> (#[trigger] remaining@[j]).name == r0[j].name
                && remaining@[j].dependency_names == r0[j].dependency_names
                && remaining@[j].constraints@.len() == r0[j].constraints@.len(),
            forall|j: int, k: int| 0 <= j < remaining@.len() && 0 <= k < remaining@[j].constraints@.len()
                ==> progressed(#[trigger] remaining@[j].constraints@[k], r0[j].constraints@[k], es.take(i as int)),
        decreases b0.len() - i,
    {
        let ghost bstart = block@;
        let ghost cstart = calls_view(calls@);
        let mut st = block.remove(i);
        proof {
            assert(st == b0[i as int]);
        }
        let ghost rm = remaining@;
        let ghost cb = block@;
        process_constraint_state(&mut st, calls, remaining, preferences, programs, table, bs0);
        proof {
            assert(es[i as int] == (key_of(b0[i as int]), b0[i as int].constraint_uuid));
            assert(es.take(i + 1) =~= es.take(i as int).push(es[i as int]));
            assert(!entry_ids(es.take(i as int)).contains(key_of(b0[i as int]))) by {
                if entry_ids(es.take(i as int)).contains(key_of(b0[i as int])) {
                    let q = choose|q: int| 0 <= q < es.take(i as int).len() && es.take(i as int)[q].0 == key_of(b0[i as int]);
                    assert(es[q].0 == es[i as int].0);
                }
            }
            assert forall|j: int, k: int| 0 <= j < remaining@.len() && 0 <= k < remaining@[j].constraints@.len()
                implies progressed(#[trigger] remaining@[j].constraints@[k], r0[j].constraints@[k], es.take(i + 1)) by {
                assert(progressed(rm[j].constraints@[k], r0[j].constraints@[k], es.take(i as int)));
                assert(marked_by(remaining@[j].constraints@[k], rm[j].constraints@[k], key_of(b0[i as int]), b0[i as int].constraint_uuid, st.context@));
                lemma_progressed_step(remaining@[j].constraints@[k], rm[j].constraints@[k], r0[j].constraints@[k], es.take(i as int), key_of(b0[i as int]), b0[i as int].constraint_uuid, st.context@);
            }
        }
        let ghost before = block@;
        block.insert(i, st);
        proof {
            assert forall|p: int| i + 1 <= p < b0.len() implies #[trigger] block@[p] == b0[p] by {
                assert(block@[p] == before[p - 1]);
            }
            assert forall|p: int| 0 <= p < i + 1 implies processed(#[trigger] block@[p], b0[p], table@) by {
                if p < i {
                    assert(block@[p] == before[p]);
                }
            }
            assert(block@.take(i as int) =~= cb.take(i as int));
            assert(cb.take(i as int) =~= bstart.take(i as int));
            assert(block@.take(i + 1).drop_last() =~= block@.take(i as int));
            assert(block@.take(i + 1).last() == st);
            assert(cstart == calls_after(c0, block@.take(i as int)));
            assert(calls_view(calls@) == calls_after(c0, block@.take(i + 1)));
        }
        i = i + 1;
    }
    proof {
        assert(es.take(i as int) =~= es);
        assert(block@.take(i as int) =~= block@);
    }
}

proof fn lemma_waited_congruent(es: Seq<(IdView, u128)>, p1: Seq<IdView>, p2: Seq<IdView>)
    requires
        forall|i: int| 0 <= i < es.len() ==> p1.contains(#[trigger] es[i].0) == p2.contains(es[i].0),
    ensures
        waited(es, p1) == waited(es, p2),
    decreases es.len(),
{
    if es.len() > 0 {
        lemma_waited_congruent(es.drop_last(), p1, p2);
        assert(es[es.len() - 1] == es.last());
    }
}

proof fn lemma_waited_append(a: Seq<(IdView, u128)>, b: Seq<(IdView, u128)>, p: Seq<IdView>)
    ensures
        waited(a + b, p) == waited(a, p) + waited(b, p),
    decreases b.len(),
{
    if b.len() == 0 {
        assert(a + b =~= a);
        assert(waited(a, p) + waited(b, p) =~= waited(a, p));
    } else {
        lemma_waited_append(a, b.drop_last(), p);
        assert((a + b).drop_last() =~= a + b.drop_last());
        assert((a + b).last() == b.last());
        if p.contains(b.last().0) {
            assert(waited(a, p) + waited(b, p) =~= (waited(a, p) + waited(b.drop_last(), p)).push(b.last()));
        }
    }
}

proof fn lemma_entry_ids_append(a: Seq<(IdView, u128)>, b: Seq<(IdView, u128)>)
    ensures
        entry_ids(a + b) == entry_ids(a).union(entry_ids(b)),
{
    assert forall|y: IdView| entry_ids(a + b).contains(y) <==> entry_ids(a).union(entry_ids(b)).contains(y) by {
        if entry_ids(a + b).contains(y) {
            let i = choose|i: int| 0 <= i < (a + b).len() && (a + b)[i].0 == y;
            if i < a.len() {
                assert(a[i].0 == y);
            } else {
                assert(b[i - a.len()].0 == y);
            }
        }
        if entry_ids(a).contains(y) {
            let i = choose|i: int| 0 <= i < a.len() && a[i].0 == y;
            assert((a + b)[i].0 == y);
        }
        if entry_ids(b).contains(y) {
            let i = choose|i: int| 0 <= i < b.len() && b[i].0 == y;
            assert((a + b)[a.len() + i].0 == y);
        }
    }
    assert(entry_ids(a + b) =~= entry_ids(a).union(entry_ids(b)));
}

/// Progress in two stages is progress by both, in order.
proof fn lemma_progressed_trans(c: ConstraintState, a: ConstraintState, b: ConstraintState, e1: Seq<(IdView, u128)>, e2: Seq<(IdView, u128)>)
    requires
        progressed(a, b, e1),
        progressed(c, a, e2),
        entry_ids(e1).disjoint(entry_ids(e2)),
    ensures
        progressed(c, b, e1 + e2),
{
    lemma_entry_ids_append(e1, e2);
    lemma_retain_ids_compose(b.pending(), entry_ids(e1), entry_ids(e2));
    lemma_retain_ids(b.pending(), entry_ids(e1));
    assert forall|i: int| 0 <= i < e2.len() implies a.pending().contains(#[trigger] e2[i].0) == b.pending().contains(e2[i].0) by {
        assert(entry_ids(e2).contains(e2[i].0));
        assert(!entry_ids(e1).contains(e2[i].0));
    }
    lemma_waited_congruent(e2, a.pending(), b.pending());
    lemma_waited_append(e1, e2, b.pending());
    assert(dep_entries(c.satisfied_dependencies@) =~= dep_entries(b.satisfied_dependencies@) + waited(e1 + e2, b.pending()));
}

/// A block whose constraints are all satisfied: its name and its states.
pub struct SatisfiedBlock {
    pub name: String,
    pub constraints: Vec<ConstraintState>,
    pub calls: Vec<((String, String, String), Vec<(String, ParameterTuple)>)>,
}

/// The key under which a call is recorded: the call, the constraint name
/// and the root type.
pub type CallKey = (Seq<char>, Seq<char>, Seq<char>);

/// A recorded call, by value: the task key and the parameters.
pub type CallItem = (Seq<char>, Seq<ASTView>, Seq<(Seq<char>, ASTView)>);

/// The key and the item that a state with a program records.
pub open spec fn call_key(x: ConstraintState) -> CallKey {
    (x.call->0@, x.name@, x.root_type@)
}

pub open spec fn call_item(x: ConstraintState) -> CallItem {
    (x.key->0@, asts_view(x.params->0.args@), x.params->0.kwargs.view())
}

/// `r` with `v` recorded under `k`: after the items of `k`, or under a new
/// key that goes last.
pub open spec fn group_push(r: Seq<(CallKey, Seq<CallItem>)>, k: CallKey, v: CallItem) -> Seq<(CallKey, Seq<CallItem>)> {
    match lookup_from(r, k, 0) {
        Some(i) => r.update(i, (k, r[i].1.push(v))),
        None => r.push((k, seq![v])),
    }
}

/// The calls `c0` with those of the states `s` that need a program
/// recorded in order (see `group_push`).
pub open spec fn calls_after(c0: Seq<(CallKey, Seq<CallItem>)>, s: Seq<ConstraintState>) -> Seq<(CallKey, Seq<CallItem>)>
    decreases s.len(),
{
    if s.len() == 0 {
        c0
    } else {
        let r = calls_after(c0, s.drop_last());
        if s.last().requires_program {
            group_push(r, call_key(s.last()), call_item(s.last()))
        } else {
            r
        }
    }
}

/// The calls of the states that need a program, grouped by key in order of
/// first appearance, each group in order.
pub open spec fn calls_of(s: Seq<ConstraintState>) -> Seq<(CallKey, Seq<CallItem>)> {
    calls_after(Seq::empty(), s)
}

/// The recorded calls, by value.
pub open spec fn calls_view(c: Seq<((String, String, String), Vec<(String, ParameterTuple)>)>) -> Seq<(CallKey, Seq<CallItem>)> {
    c.map_values(|e: ((String, String, String), Vec<(String, ParameterTuple)>)| (
        (e.0.0@, e.0.1@, e.0.2@),
        e.1@.map_values(|t: (String, ParameterTuple)| (t.0@, asts_view(t.1.args@), t.1.kwargs.view())),
    ))
}

/// A state with a program has its call, key and parameters.
pub open spec fn call_recordable(x: ConstraintState) -> bool {
    x.requires_program ==> x.call is Some && x.key is Some && x.params is Some
}

proof fn lemma_calls_view_index(r: Seq<((String, String, String), Vec<(String, ParameterTuple)>)>, j: int)
    requires
        0 <= j < r.len(),
    ensures
        calls_view(r).len() == r.len(),
        calls_view(r)[j].0 == (r[j].0.0@, r[j].0.1@, r[j].0.2@),
{
}

fn find_call(
    r: &Vec<((String, String, String), Vec<(String, ParameterTuple)>)>,
    call: &String,
    name: &String,
    root_type: &String,
) -> (f: Option<usize>)
    ensures
        match f {
            Some(j) => lookup_from(calls_view(r@), (call@, name@, root_type@), 0) == Some(j as int) && j < r@.len(),
            None => lookup_from(calls_view(r@), (call@, name@, root_type@), 0) is None,
        },
{
    let ghost rv = calls_view(r@);
    let ghost k = (call@, name@, root_type@);
    let mut j: usize = 0;
    while j < r.len()
        invariant
            j <= r@.len(),
            rv == calls_view(r@),
            k == (call@, name@, root_type@),
            lookup_from(rv, k, 0) == lookup_from(rv, k, j as int),
        decreases r@.len() - j,
    {
        if str_eq(r[j].0.0.as_str(), call.as_str()) && str_eq(r[j].0.1.as_str(), name.as_str())
            && str_eq(r[j].0.2.as_str(), root_type.as_str()) {
            proof {
                lemma_calls_view_index(r@, j as int);
                assert(rv[j as int].0 == k);
            }
            return Some(j);
        }
        proof {
            lemma_calls_view_index(r@, j as int);
            assert(rv[j as int].0 != k);
        }
        j = j + 1;
    }
    None
}

/// Records the call of a satisfied state that needs a program: its task key
/// and parameters, under its call, constraint name and root type (see
/// `group_push`).
pub fn record_call(calls: &mut Vec<((String, String, String), Vec<(String, ParameterTuple)>)>, x: &ConstraintState)
    requires
        x.requires_program,
        call_recordable(*x),
    ensures
        calls_view(final(calls)@) == group_push(calls_view(old(calls)@), call_key(*x), call_item(*x)),
{
    let call = match &x.call { Some(c) => c.clone(), None => String::new() };
    let key = match &x.key { Some(c) => c.clone(), None => String::new() };
    let params = match &x.params {
        Some(p) => p.duplicate(),
        None => ParameterTuple { args: Vec::new(), kwargs: KeywordMap::new() },
    };
    let ghost rv = calls_view(calls@);
    let ghost k = call_key(*x);
    let ghost v = call_item(*x);
    let found = find_call(calls, &call, &x.name, &x.root_type);
    proof {
        assert(k == (call@, x.name@, x.root_type@));
    }
    if let Some(j) = found {
        let ghost r0 = calls@;
        let (ck, mut items) = calls.remove(j);
        let ghost items0 = items@;
        let kp = (key, params);
        items.push(kp);
        proof {
            assert(items@ == items0.push(kp));
            assert(items@.map_values(|t: (String, ParameterTuple)| (t.0@, asts_view(t.1.args@), t.1.kwargs.view()))
                =~= items0.map_values(|t: (String, ParameterTuple)| (t.0@, asts_view(t.1.args@), t.1.kwargs.view())).push(v));
            lemma_lookup_from(rv, k, 0);
            assert(ck == r0[j as int].0);
            assert(rv[j as int].0 == (r0[j as int].0.0@, r0[j as int].0.1@, r0[j as int].0.2@));
            assert((ck.0@, ck.1@, ck.2@) == k);
            assert(group_push(rv, k, v) == rv.update(j as int, (k, rv[j as int].1.push(v))));
        }
        calls.insert(j, (ck, items));
        proof {
            assert(calls@ == r0.update(j as int, (ck, items)));
            assert(calls_view(calls@) =~= rv.update(j as int, (k, rv[j as int].1.push(v))));
        }
    } else {
        let mut items: Vec<(String, ParameterTuple)> = Vec::new();
        let kp = (key, params);
        items.push(kp);
        proof {
            assert(items@.map_values(|t: (String, ParameterTuple)| (t.0@, asts_view(t.1.args@), t.1.kwargs.view()))
                =~= seq![v]);
        }
        let ck = (call, x.name.clone(), x.root_type.clone());
        let ghost r0 = calls@;
        calls.push((ck, items));
        proof {
            assert(calls@ == r0.push((ck, items)));
            assert((ck.0@, ck.1@, ck.2@) == k);
            assert(calls_view(calls@) =~= rv.push((k, seq![v])));
        }
    }
}

/// Position `i` is the first entry for `name`.
pub open spec fn first_entry(programs: Seq<(String, Vec<Program>)>, name: Seq<char>, i: int) -> bool {
    &&& 0 <= i < programs.len()
    &&& programs[i].0@ == name
    &&& forall|j: int| 0 <= j < i ==> (#[trigger] programs[j]).0@ != name
}

/// The programs registered for a constraint name: those of its first entry,
/// or none.
pub open spec fn programs_for(programs: Seq<(String, Vec<Program>)>, name: Seq<char>) -> Seq<Program> {
    if exists|i: int| first_entry(programs, name, i) {
        programs[choose|i: int| first_entry(programs, name, i)].1@
    } else {
        Seq::empty()
    }
}

/// The position of the programs for `name`, if any.
fn find_programs(programs: &Vec<(String, Vec<Program>)>, name: &String) -> (r: Option<usize>)
    ensures
        match r {
            Some(i) => first_entry(programs@, name@, i as int) && programs_for(programs@, name@) == programs@[i as int].1@,
            None => programs_for(programs@, name@) == Seq::<Program>::empty(),
        },
{
    let mut i: usize = 0;
    while i < programs.len()
        invariant
            i <= programs@.len(),
            forall|j: int| 0 <= j < i ==> (#[trigger] programs@[j]).0@ != name@,
        decreases programs@.len() - i,
    {
        if str_eq(programs[i].0.as_str(), name.as_str()) {
            proof {
                assert(first_entry(programs@, name@, i as int));
                let c = choose|c: int| first_entry(programs@, name@, c);
                if c < i {
                    assert(programs@[c].0@ != name@);
                } else if c > i {
                    assert(programs@[i as int].0@ != name@);
                }
            }
            return Some(i);
        }
        i = i + 1;
    }
    proof {
        if exists|c: int| first_entry(programs@, name@, c) {
            let c = choose|c: int| first_entry(programs@, name@, c);
            assert(programs@[c].0@ != name@);
        }
    }
    None
}

/// The state at position `k` of block `j`.
pub open spec fn state_at(bs: Seq<UnsatisfiedBlock>, j: int, k: int) -> ConstraintState {
    bs[j].constraints@[k]
}

/// Block `j` holds a state at position `k`.
pub open spec fn valid_at(bs: Seq<UnsatisfiedBlock>, j: int, k: int) -> bool {
    0 <= j < bs.len() && 0 <= k < bs[j].constraints@.len()
}

/// No two states of the blocks share an id.
pub open spec fn state_keys_unique(bs: Seq<UnsatisfiedBlock>) -> bool {
    forall|j1: int, k1: int, j2: int, k2: int|
        valid_at(bs, j1, k1) && valid_at(bs, j2, k2) && (j1 != j2 || k1 != k2)
            ==> key_of(#[trigger] state_at(bs, j1, k1)) != key_of(#[trigger] state_at(bs, j2, k2))
}

/// `a` comes before `b` in `order`.
pub open spec fn before_in(order: Seq<Seq<char>>, a: Seq<char>, b: Seq<char>) -> bool {
    exists|p: int, q: int| 0 <= p < q < order.len() && #[trigger] order[p] == a && #[trigger] order[q] == b
}

/// Every constraint waits only for constraints of blocks that come before
/// its own in `order`.
pub open spec fn waits_on_earlier(bs: Seq<UnsatisfiedBlock>, order: Seq<Seq<char>>) -> bool {
    forall|j: int, k: int, x: IdView|
        valid_at(bs, j, k) && #[trigger] state_at(bs, j, k).pending().contains(x) ==> exists|j2: int, k2: int|
            valid_at(bs, j2, k2) && key_of(#[trigger] state_at(bs, j2, k2)) == x && before_in(order, bs[j2].name@, bs[j].name@)
}

/// Every state is fresh: well formed, not satisfied, with an empty context
/// and nothing satisfied yet; and every state that needs a program has one
/// among the programs of its block, and what it computed for the state.
pub open spec fn states_fresh(bs: Seq<UnsatisfiedBlock>, preferences: Seq<Dialect>, programs: Seq<(String, Vec<Program>)>, table: Seq<(TaskId, ComputedArgs)>) -> bool {
    forall|j: int, k: int| valid_at(bs, j, k) ==> {
        let s = #[trigger] state_at(bs, j, k);
        &&& s.wf()
        &&& !s.satisfied
        &&& s.context@ == Map::<Seq<char>, Seq<char>>::empty()
        &&& s.satisfied_dependencies@.len() == 0
        &&& s.requires_program ==> best_program(dialects_view(preferences), program_dialects(programs_for(programs, bs[j].name@))) is Some
            && has_computed(table, key_of(s))
            && computed_for(table, key_of(s)).dialect@ == chosen_dialect(preferences, programs_for(programs, bs[j].name@))
    }
}

/// The ids recorded as satisfied dependencies of a state.
pub open spec fn recorded_ids(s: ConstraintState) -> Set<IdView> {
    Set::new(|x: IdView| exists|m: int| 0 <= m < s.satisfied_dependencies@.len() && (#[trigger] s.satisfied_dependencies@[m]).id@ == x)
}

/// `o` is the final state of the constraint that started as `i0`: satisfied,
/// with its task key and, when it needs one, what its program computed for
/// it (code and context), and with every
/// constraint it waited for recorded as satisfied.
pub open spec fn done_state(o: ConstraintState, i0: ConstraintState, table: Seq<(TaskId, ComputedArgs)>) -> bool {
    &&& o.wf()
    &&& o.satisfied
    &&& o.pending().len() == 0
    &&& key_of(o) == key_of(i0)
    &&& o.name == i0.name
    &&& o.requires_program == i0.requires_program
    &&& opt_string_view(o.key) == Some(task_key(opt_string_view(i0.root_tag), records_view(i0.ancestors@)))
    &&& (i0.requires_program ==> has_program(o, table))
    &&& recorded_ids(o) == i0.pending().to_set()
}

/// Block `b` is block `j0` of `bs0` with its states progressed by `es`.
pub open spec fn tracks(b: UnsatisfiedBlock, bs0: Seq<UnsatisfiedBlock>, j0: int, es: Seq<(IdView, u128)>) -> bool {
    &&& 0 <= j0 < bs0.len()
    &&& b.name@ == bs0[j0].name@
    &&& b.constraints@.len() == bs0[j0].constraints@.len()
    &&& forall|k: int| 0 <= k < b.constraints@.len() ==> progressed(#[trigger] b.constraints@[k], bs0[j0].constraints@[k], es)
}

/// Block `b` is some initial block with its states progressed by `es`.
pub open spec fn follows_initial(b: UnsatisfiedBlock, bs0: Seq<UnsatisfiedBlock>, es: Seq<(IdView, u128)>) -> bool {
    exists|j0: int| tracks(b, bs0, j0, es)
}

proof fn lemma_waited_ids(es: Seq<(IdView, u128)>, p: Seq<IdView>)
    ensures
        forall|x: IdView| (exists|m: int| 0 <= m < waited(es, p).len() && (#[trigger] waited(es, p)[m]).0 == x)
            <==> (p.contains(x) && entry_ids(es).contains(x)),
        forall|m: int| 0 <= m < waited(es, p).len() ==> exists|i: int| 0 <= i < es.len() && es[i] == #[trigger] waited(es, p)[m],
    decreases es.len(),
{
    if es.len() > 0 {
        let d = es.drop_last();
        lemma_waited_ids(d, p);
        let w = waited(d, p);
        assert forall|x: IdView| (exists|m: int| 0 <= m < waited(es, p).len() && (#[trigger] waited(es, p)[m]).0 == x)
            <==> (p.contains(x) && entry_ids(es).contains(x)) by {
            if exists|m: int| 0 <= m < waited(es, p).len() && (#[trigger] waited(es, p)[m]).0 == x {
                let m = choose|m: int| 0 <= m < waited(es, p).len() && (#[trigger] waited(es, p)[m]).0 == x;
                if m < w.len() {
                    assert(waited(es, p)[m] == w[m]);
                    let i = choose|i: int| 0 <= i < d.len() && d[i] == #[trigger] w[m];
                    assert(es[i] == d[i]);
                } else {
                    assert(es[es.len() - 1].0 == x);
                }
            }
            if p.contains(x) && entry_ids(es).contains(x) {
                let i = choose|i: int| 0 <= i < es.len() && es[i].0 == x;
                if i < d.len() {
                    assert(d[i].0 == x);
                    assert(entry_ids(d).contains(x));
                    let m = choose|m: int| 0 <= m < w.len() && (#[trigger] w[m]).0 == x;
                    assert(waited(es, p)[m] == w[m]);
                } else {
                    assert(waited(es, p)[w.len() as int].0 == x);
                }
            }
        }
        assert forall|m: int| 0 <= m < waited(es, p).len() implies exists|i: int| 0 <= i < es.len() && es[i] == #[trigger] waited(es, p)[m] by {
            if m < w.len() {
                assert(waited(es, p)[m] == w[m]);
                let i = choose|i: int| 0 <= i < d.len() && d[i] == #[trigger] w[m];
                assert(es[i] == d[i]);
            } else {
                assert(es[es.len() - 1] == waited(es, p)[m]);
            }
        }
    }
}

/// The invariant of `satisfy_constraints`: the blocks satisfied so far
/// (`done`, whose states' entries are `es`, with results `out`) and the
/// blocks still waiting (`rem`), against the initial blocks `bs0`.
pub open spec fn run_inv(
    bs0: Seq<UnsatisfiedBlock>,
    rem: Seq<UnsatisfiedBlock>,
    out: Seq<SatisfiedBlock>,
    done: Seq<Seq<char>>,
    es: Seq<(IdView, u128)>,
    preferences: Seq<Dialect>,
    programs: Seq<(String, Vec<Program>)>,
    table: Seq<(TaskId, ComputedArgs)>,
) -> bool {
    let bv0 = blocks_view(bs0);
    let order = schedule(bv0, bs0.len()).0;
    &&& order == done + schedule(blocks_view(rem), rem.len()).0
    &&& schedule(bv0, bs0.len()).1 == schedule(blocks_view(rem), rem.len()).1
    &&& blocks_ok(rem, table, bs0)
    &&& names_unique(blocks_view(rem))
    &&& forall|j: int| 0 <= j < rem.len() ==> !done.contains((#[trigger] rem[j]).name@)
    &&& forall|j: int| 0 <= j < rem.len() ==> follows_initial(#[trigger] rem[j], bs0, es)
    &&& forall|y: IdView| #[trigger] entry_ids(es).contains(y) <==> exists|j0: int, k0: int|
        valid_at(bs0, j0, k0) && key_of(#[trigger] state_at(bs0, j0, k0)) == y && done.contains(bs0[j0].name@)
    &&& out.len() == done.len()
    &&& forall|p: int| 0 <= p < out.len() ==> (#[trigger] out[p]).name@ == done[p]
    &&& forall|p: int| 0 <= p < out.len() ==> exists|j0: int| 0 <= j0 < bs0.len() && bs0[j0].name@ == (#[trigger] out[p]).name@
        && out[p].constraints@.len() == bs0[j0].constraints@.len()
        && forall|k: int| 0 <= k < out[p].constraints@.len() ==> done_state(#[trigger] out[p].constraints@[k], bs0[j0].constraints@[k], table)
}

/// The facts about the initial blocks that the run relies on throughout.
pub open spec fn run_facts(bs0: Seq<UnsatisfiedBlock>, preferences: Seq<Dialect>, programs: Seq<(String, Vec<Program>)>, table: Seq<(TaskId, ComputedArgs)>) -> bool {
    let bv0 = blocks_view(bs0);
    let order = schedule(bv0, bs0.len()).0;
    &&& names_unique(bv0)
    &&& state_keys_unique(bs0)
    &&& states_fresh(bs0, preferences, programs, table)
    &&& contexts_agree(bs0, table)
    &&& waits_on_earlier(bs0, order)
    &&& forall|p: int, q: int| 0 <= p < order.len() && 0 <= q < order.len() && p != q ==> order[p] != order[q]
    &&& order.len() + schedule(bv0, bs0.len()).1.len() == bs0.len()
}

proof fn lemma_run_start(bs0: Seq<UnsatisfiedBlock>, preferences: Seq<Dialect>, programs: Seq<(String, Vec<Program>)>, table: Seq<(TaskId, ComputedArgs)>)
    requires
        run_facts(bs0, preferences, programs, table),
    ensures
        run_inv(bs0, bs0, Seq::empty(), Seq::empty(), Seq::empty(), preferences, programs, table),
{
    let bv0 = blocks_view(bs0);
    let e = Seq::<(IdView, u128)>::empty();
    let d = Seq::<Seq<char>>::empty();
    assert(schedule(bv0, bs0.len()).0 =~= d + schedule(bv0, bs0.len()).0);
    assert forall|j: int| 0 <= j < bs0.len() implies follows_initial(#[trigger] bs0[j], bs0, e) by {
        assert forall|k: int| 0 <= k < bs0[j].constraints@.len() implies progressed(#[trigger] bs0[j].constraints@[k], bs0[j].constraints@[k], e) by {
            assert(valid_at(bs0, j, k));
            assert(state_at(bs0, j, k).wf());
            lemma_progressed_start(bs0[j].constraints@[k]);
        }
        assert(tracks(bs0[j], bs0, j, e));
    }
    assert forall|j: int, k: int| 0 <= j < bs0.len() && 0 <= k < bs0[j].constraints@.len() implies (#[trigger] bs0[j].constraints@[k]).wf()
        && bs0[j].constraints@[k].context@ == Map::<Seq<char>, Seq<char>>::empty() by {
        assert(valid_at(bs0, j, k));
        assert(state_at(bs0, j, k) == bs0[j].constraints@[k]);
    }
    assert forall|j: int, k: int| 0 <= j < bs0.len() && 0 <= k < bs0[j].constraints@.len()
        implies state_ok(#[trigger] bs0[j].constraints@[k], table, bs0) by {
        let s = bs0[j].constraints@[k];
        assert(valid_at(bs0, j, k));
        assert(state_at(bs0, j, k) == s);
        assert forall|z: IdView| #[trigger] s.pending().contains(z) implies direct(bs0, key_of(s), z) by {
            assert(key_of(state_at(bs0, j, k)) == key_of(s));
        }
        assert forall|q: Seq<char>| #[trigger] s.context@.contains_key(q) implies false by {}
    }
    assert forall|y: IdView| #[trigger] entry_ids(e).contains(y) <==> exists|j0: int, k0: int|
        valid_at(bs0, j0, k0) && key_of(#[trigger] state_at(bs0, j0, k0)) == y && d.contains(bs0[j0].name@) by {
    }
}

proof fn lemma_run_end(
    bs0: Seq<UnsatisfiedBlock>,
    cur: Seq<UnsatisfiedBlock>,
    out: Seq<SatisfiedBlock>,
    done: Seq<Seq<char>>,
    es: Seq<(IdView, u128)>,
    preferences: Seq<Dialect>,
    programs: Seq<(String, Vec<Program>)>,
    table: Seq<(TaskId, ComputedArgs)>,
)
    requires
        run_facts(bs0, preferences, programs, table),
        schedule(blocks_view(bs0), bs0.len()).1.len() == 0,
        run_inv(bs0, cur, out, done, es, preferences, programs, table),
        first_ready_from(blocks_view(cur), 0) is None,
    ensures
        done == schedule(blocks_view(bs0), bs0.len()).0,
        out.len() == bs0.len(),
        cur.len() == 0,
{
    let cv = blocks_view(cur);
    assert(schedule(cv, cur.len()).1 == cv);
    assert(cur.len() == 0);
    assert(schedule(cv, cur.len()).0 =~= Seq::<Seq<char>>::empty());
    assert(done + schedule(cv, cur.len()).0 =~= done);
}

/// When a block's turn comes, each of its constraints waits only for
/// constraints already satisfied.
proof fn lemma_block_deps_done(
    bs0: Seq<UnsatisfiedBlock>,
    cur: Seq<UnsatisfiedBlock>,
    out: Seq<SatisfiedBlock>,
    done: Seq<Seq<char>>,
    es: Seq<(IdView, u128)>,
    preferences: Seq<Dialect>,
    programs: Seq<(String, Vec<Program>)>,
    table: Seq<(TaskId, ComputedArgs)>,
    i: int,
    j0: int,
)
    requires
        run_facts(bs0, preferences, programs, table),
        run_inv(bs0, cur, out, done, es, preferences, programs, table),
        first_ready_from(blocks_view(cur), 0) == Some(i),
        0 <= i < cur.len(),
        tracks(cur[i], bs0, j0, es),
    ensures
        forall|k: int, x: IdView| 0 <= k < bs0[j0].constraints@.len() && #[trigger] bs0[j0].constraints@[k].pending().contains(x)
            ==> entry_ids(es).contains(x),
        schedule(blocks_view(bs0), bs0.len()).0[done.len() as int] == cur[i].name@,
{
    let cv = blocks_view(cur);
    let order = schedule(blocks_view(bs0), bs0.len()).0;
    assert(cur.len() > 0);
    assert(schedule(cv, cur.len()).0 == seq![cv[i].0] + schedule(release(cv, i), (cur.len() - 1) as nat).0);
    assert(order[done.len() as int] == cv[i].0);
    assert(cv[i].0 == cur[i].name@);
    assert forall|k: int, x: IdView| 0 <= k < bs0[j0].constraints@.len() && #[trigger] bs0[j0].constraints@[k].pending().contains(x)
        implies entry_ids(es).contains(x) by {
        assert(valid_at(bs0, j0, k));
        assert(state_at(bs0, j0, k).pending().contains(x));
        let (j2, k2) = choose|j2: int, k2: int|
            valid_at(bs0, j2, k2) && key_of(#[trigger] state_at(bs0, j2, k2)) == x && before_in(order, bs0[j2].name@, bs0[j0].name@);
        let (p, q) = choose|p: int, q: int| 0 <= p < q < order.len() && #[trigger] order[p] == bs0[j2].name@ && #[trigger] order[q] == bs0[j0].name@;
        assert(q == done.len());
        assert(order[p] == done[p]);
        assert(done.contains(bs0[j2].name@));
    }
}

proof fn lemma_run_ready(
    bs0: Seq<UnsatisfiedBlock>,
    cur: Seq<UnsatisfiedBlock>,
    r1: Seq<UnsatisfiedBlock>,
    out: Seq<SatisfiedBlock>,
    done: Seq<Seq<char>>,
    es: Seq<(IdView, u128)>,
    preferences: Seq<Dialect>,
    programs: Seq<(String, Vec<Program>)>,
    table: Seq<(TaskId, ComputedArgs)>,
    i: int,
    pv: Seq<Program>,
)
    requires
        run_facts(bs0, preferences, programs, table),
        run_inv(bs0, cur, out, done, es, preferences, programs, table),
        first_ready_from(blocks_view(cur), 0) == Some(i),
        0 <= i < cur.len(),
        r1.len() == cur.len() - 1,
        forall|k: int| 0 <= k < r1.len() ==> (#[trigger] r1[k]).constraints == cur.remove(i)[k].constraints,
        pv == programs_for(programs, cur[i].name@),
    ensures
        forall|k: int| 0 <= k < cur[i].constraints@.len() ==> ready(#[trigger] cur[i].constraints@[k], preferences, pv, table, bs0),
        entry_ids_unique(entries_of(cur[i].constraints@)),
        blocks_ok(r1, table, bs0),
{
    assert(follows_initial(cur[i], bs0, es));
    let j0 = choose|j0: int| tracks(cur[i], bs0, j0, es);
    lemma_block_deps_done(bs0, cur, out, done, es, preferences, programs, table, i, j0);
    let b = cur[i].constraints@;
    assert forall|k: int| 0 <= k < b.len() implies ready(#[trigger] b[k], preferences, pv, table, bs0) by {
        let i0 = bs0[j0].constraints@[k];
        assert(progressed(b[k], i0, es));
        assert(valid_at(bs0, j0, k));
        assert(state_at(bs0, j0, k) == i0);
        lemma_retain_ids(i0.pending(), entry_ids(es));
        let r = retain_ids(i0.pending(), entry_ids(es));
        if r.len() > 0 {
            assert(r.contains(r[0]));
            assert(i0.pending().contains(r[0]));
        }
        if !b[k].requires_program {
            assert forall|j: int, k2: int| valid_at(bs0, j, k2) && key_of(#[trigger] state_at(bs0, j, k2)) == key_of(b[k])
                implies !state_at(bs0, j, k2).requires_program by {
                if j != j0 || k2 != k {
                    assert(key_of(state_at(bs0, j0, k)) != key_of(state_at(bs0, j, k2)));
                }
            }
        }
    }
    assert(entry_ids_unique(entries_of(b))) by {
        assert forall|a: int, c: int| 0 <= a < entries_of(b).len() && 0 <= c < entries_of(b).len() && a != c implies entries_of(b)[a].0 != entries_of(b)[c].0 by {
            assert(progressed(b[a], bs0[j0].constraints@[a], es));
            assert(progressed(b[c], bs0[j0].constraints@[c], es));
            assert(valid_at(bs0, j0, a) && valid_at(bs0, j0, c));
            assert(key_of(state_at(bs0, j0, a)) != key_of(state_at(bs0, j0, c)));
        }
    }
    assert forall|j: int, k: int| 0 <= j < r1.len() && 0 <= k < r1[j].constraints@.len() implies (#[trigger] r1[j].constraints@[k]).wf()
        && state_ok(r1[j].constraints@[k], table, bs0) by {
        let jj = if j < i { j } else { j + 1 };
        assert(r1[j].constraints == cur[jj].constraints);
    }
}

proof fn lemma_run_step(
    bs0: Seq<UnsatisfiedBlock>,
    cur: Seq<UnsatisfiedBlock>,
    r1: Seq<UnsatisfiedBlock>,
    r2: Seq<UnsatisfiedBlock>,
    before: Seq<ConstraintState>,
    after: Seq<ConstraintState>,
    o1: Seq<SatisfiedBlock>,
    o2: Seq<SatisfiedBlock>,
    done: Seq<Seq<char>>,
    es: Seq<(IdView, u128)>,
    preferences: Seq<Dialect>,
    programs: Seq<(String, Vec<Program>)>,
    table: Seq<(TaskId, ComputedArgs)>,
    i: int,
    pv: Seq<Program>,
)
    requires
        run_facts(bs0, preferences, programs, table),
        run_inv(bs0, cur, o1, done, es, preferences, programs, table),
        first_ready_from(blocks_view(cur), 0) == Some(i),
        0 <= i < cur.len(),
        blocks_view(r1) == release(blocks_view(cur), i),
        r1.len() == cur.len() - 1,
        forall|k: int| 0 <= k < r1.len() ==> (#[trigger] r1[k]).constraints == cur.remove(i)[k].constraints,
        before == cur[i].constraints@,
        pv == programs_for(programs, cur[i].name@),
        forall|k: int| 0 <= k < before.len() ==> ready(#[trigger] before[k], preferences, pv, table, bs0),
        after.len() == before.len(),
        forall|k: int| 0 <= k < after.len() ==> processed(#[trigger] after[k], before[k], table),
        blocks_ok(r2, table, bs0),
        r2.len() == r1.len(),
        forall|j: int| 0 <= j < r2.len() ==> (#[trigger] r2[j]).name == r1[j].name
            && r2[j].dependency_names == r1[j].dependency_names
            && r2[j].constraints@.len() == r1[j].constraints@.len(),
        forall|j: int, k: int| 0 <= j < r2.len() && 0 <= k < r2[j].constraints@.len()
            ==> progressed(#[trigger] r2[j].constraints@[k], r1[j].constraints@[k], entries_of(before)),
        o2.len() == o1.len() + 1,
        forall|p: int| 0 <= p < o1.len() ==> #[trigger] o2[p] == o1[p],
        o2[o1.len() as int].name@ == cur[i].name@,
        o2[o1.len() as int].constraints@ == after,
    ensures
        run_inv(bs0, r2, o2, done.push(cur[i].name@), es + entries_of(before), preferences, programs, table),
{
    let bv0 = blocks_view(bs0);
    let order = schedule(bv0, bs0.len()).0;
    let cv = blocks_view(cur);
    let name = cur[i].name@;
    let done2 = done.push(name);
    let eb = entries_of(before);
    let es2 = es + eb;
    assert(follows_initial(cur[i], bs0, es));
    let j0 = choose|j0: int| tracks(cur[i], bs0, j0, es);
    lemma_block_deps_done(bs0, cur, o1, done, es, preferences, programs, table, i, j0);
    assert(bs0[j0].name@ == name);
    // the schedule moves on
    assert(blocks_view(r2) =~= blocks_view(r1)) by {
        assert forall|j: int| 0 <= j < r2.len() implies blocks_view(r2)[j] == blocks_view(r1)[j] by {
            assert(r2[j].name == r1[j].name && r2[j].dependency_names == r1[j].dependency_names);
        }
    }
    assert(schedule(cv, cur.len()).0 == seq![cv[i].0] + schedule(release(cv, i), (cur.len() - 1) as nat).0);
    assert(order =~= done2 + schedule(blocks_view(r2), r2.len()).0);
    // the ids of the new entries are those of the block's initial states
    assert forall|k: int| 0 <= k < before.len() implies progressed(#[trigger] before[k], bs0[j0].constraints@[k], es) by {}
    assert forall|y: IdView| #[trigger] entry_ids(eb).contains(y) <==> exists|k0: int| 0 <= k0 < bs0[j0].constraints@.len() && key_of(bs0[j0].constraints@[k0]) == y by {
        if entry_ids(eb).contains(y) {
            let m = choose|m: int| 0 <= m < eb.len() && eb[m].0 == y;
            assert(progressed(before[m], bs0[j0].constraints@[m], es));
        }
        if exists|k0: int| 0 <= k0 < bs0[j0].constraints@.len() && key_of(bs0[j0].constraints@[k0]) == y {
            let k0 = choose|k0: int| 0 <= k0 < bs0[j0].constraints@.len() && key_of(bs0[j0].constraints@[k0]) == y;
            assert(progressed(before[k0], bs0[j0].constraints@[k0], es));
            assert(eb[k0].0 == y);
        }
    }
    assert(entry_ids(es).disjoint(entry_ids(eb))) by {
        assert forall|y: IdView| entry_ids(es).contains(y) implies !entry_ids(eb).contains(y) by {
            let (ja, ka) = choose|ja: int, ka: int| valid_at(bs0, ja, ka) && key_of(#[trigger] state_at(bs0, ja, ka)) == y && done.contains(bs0[ja].name@);
            if entry_ids(eb).contains(y) {
                let k0 = choose|k0: int| 0 <= k0 < bs0[j0].constraints@.len() && key_of(bs0[j0].constraints@[k0]) == y;
                assert(valid_at(bs0, j0, k0));
                assert(key_of(state_at(bs0, j0, k0)) == y);
                assert(ja == j0 && ka == k0);
                assert(!done.contains(cur[i].name@));
            }
        }
    }
    lemma_entry_ids_append(es, eb);
    // remaining blocks keep tracking their initial blocks
    assert forall|j: int| 0 <= j < r2.len() implies follows_initial(#[trigger] r2[j], bs0, es2) by {
        let jj = if j < i { j } else { j + 1 };
        assert(r1[j].constraints == cur[jj].constraints);
        assert(follows_initial(cur[jj], bs0, es));
        let jc = choose|jc: int| tracks(cur[jj], bs0, jc, es);
        assert(r1[j].name@ == cur[jj].name@) by {
            assert(blocks_view(r1)[j] == release(cv, i)[j]);
        }
        assert forall|k: int| 0 <= k < r2[j].constraints@.len() implies progressed(#[trigger] r2[j].constraints@[k], bs0[jc].constraints@[k], es2) by {
            assert(progressed(r1[j].constraints@[k], bs0[jc].constraints@[k], es));
            lemma_progressed_trans(r2[j].constraints@[k], r1[j].constraints@[k], bs0[jc].constraints@[k], es, eb);
        }
        assert(tracks(r2[j], bs0, jc, es2));
    }
    // names
    assert forall|j: int| 0 <= j < r2.len() implies !done2.contains((#[trigger] r2[j]).name@) by {
        let jj = if j < i { j } else { j + 1 };
        assert(r2[j].name@ == cv[jj].0) by {
            assert(blocks_view(r2)[j] == release(cv, i)[j]);
        }
        assert(!done.contains(cur[jj].name@));
        assert(cv[jj].0 != cv[i].0);
        if done2.contains(r2[j].name@) {
            let p = choose|p: int| 0 <= p < done2.len() && done2[p] == r2[j].name@;
            if p < done.len() {
                assert(done[p] == r2[j].name@);
            }
        }
    }
    assert(names_unique(blocks_view(r2))) by {
        let rv = blocks_view(r2);
        assert forall|a: int, c: int| 0 <= a < rv.len() && 0 <= c < rv.len() && a != c implies rv[a].0 != rv[c].0 by {
            let aa = if a < i { a } else { a + 1 };
            let cc = if c < i { c } else { c + 1 };
            assert(rv[a] == release(cv, i)[a] && rv[c] == release(cv, i)[c]);
        }
    }
    // entry ids of the satisfied blocks
    assert forall|y: IdView| #[trigger] entry_ids(es2).contains(y) <==> exists|ja: int, ka: int|
        valid_at(bs0, ja, ka) && key_of(#[trigger] state_at(bs0, ja, ka)) == y && done2.contains(bs0[ja].name@) by {
        if exists|ja: int, ka: int| valid_at(bs0, ja, ka) && key_of(#[trigger] state_at(bs0, ja, ka)) == y && done2.contains(bs0[ja].name@) {
            let (ja, ka) = choose|ja: int, ka: int| valid_at(bs0, ja, ka) && key_of(#[trigger] state_at(bs0, ja, ka)) == y && done2.contains(bs0[ja].name@);
            let p = choose|p: int| 0 <= p < done2.len() && done2[p] == bs0[ja].name@;
            if p < done.len() {
                assert(done.contains(bs0[ja].name@));
                assert(entry_ids(es).contains(y));
            } else {
                assert(bs0[ja].name@ == bs0[j0].name@);
                assert(ja == j0) by {
                    if ja != j0 {
                        assert(bv0[ja].0 == bs0[ja].name@ && bv0[j0].0 == bs0[j0].name@);
                    }
                }
                assert(entry_ids(eb).contains(y));
            }
        }
        if entry_ids(es).contains(y) {
            let (ja, ka) = choose|ja: int, ka: int| valid_at(bs0, ja, ka) && key_of(#[trigger] state_at(bs0, ja, ka)) == y && done.contains(bs0[ja].name@);
            let p = choose|p: int| 0 <= p < done.len() && done[p] == bs0[ja].name@;
            assert(done2[p] == bs0[ja].name@);
        }
        if entry_ids(eb).contains(y) {
            let k0 = choose|k0: int| 0 <= k0 < bs0[j0].constraints@.len() && key_of(bs0[j0].constraints@[k0]) == y;
            assert(valid_at(bs0, j0, k0));
            assert(key_of(state_at(bs0, j0, k0)) == y);
            assert(done2[done.len() as int] == bs0[j0].name@);
        }
    }
    // the new satisfied block
    assert forall|p: int| 0 <= p < o2.len() implies (#[trigger] o2[p]).name@ == done2[p] by {
        if p < o1.len() {
            assert(o2[p] == o1[p]);
        }
    }
    assert forall|k: int| 0 <= k < after.len() implies done_state(#[trigger] after[k], bs0[j0].constraints@[k], table) by {
        let i0 = bs0[j0].constraints@[k];
        assert(progressed(before[k], i0, es));
        assert(processed(after[k], before[k], table));
        assert(valid_at(bs0, j0, k));
        assert(state_at(bs0, j0, k) == i0);
        assert(i0.satisfied_dependencies@.len() == 0);
        assert(dep_entries(i0.satisfied_dependencies@) =~= Seq::<(IdView, u128)>::empty());
        let w = waited(es, i0.pending());
        assert(dep_entries(after[k].satisfied_dependencies@) =~= w);
        lemma_waited_ids(es, i0.pending());
        assert forall|x: IdView| #[trigger] recorded_ids(after[k]).contains(x) <==> i0.pending().to_set().contains(x) by {
            if recorded_ids(after[k]).contains(x) {
                let m = choose|m: int| 0 <= m < after[k].satisfied_dependencies@.len() && (#[trigger] after[k].satisfied_dependencies@[m]).id@ == x;
                assert(w[m].0 == x);
            }
            if i0.pending().contains(x) {
                assert(entry_ids(es).contains(x));
                let m = choose|m: int| 0 <= m < w.len() && (#[trigger] w[m]).0 == x;
                assert(dep_entries(after[k].satisfied_dependencies@)[m].0 == x);
                assert(after[k].satisfied_dependencies@[m].id@ == x);
            }
        }
        assert(recorded_ids(after[k]) =~= i0.pending().to_set());
    }
    assert forall|p: int| 0 <= p < o2.len() implies exists|ja: int| 0 <= ja < bs0.len() && bs0[ja].name@ == (#[trigger] o2[p]).name@
        && o2[p].constraints@.len() == bs0[ja].constraints@.len()
        && forall|k: int| 0 <= k < o2[p].constraints@.len() ==> done_state(#[trigger] o2[p].constraints@[k], bs0[ja].constraints@[k], table) by {
        if p < o1.len() {
            assert(o2[p] == o1[p]);
        } else {
            assert(o2[p].constraints@ == after);
        }
    }
}

/// Satisfies the blocks one at a time, in the order of `schedule`: each
/// time the first block that waits for nothing is taken out (releasing the
/// blocks that wait for its name), and its states are processed in order
/// (see `satisfy_block_states`): a state that needs a program takes what
/// the program chosen among those registered for its name computed for it
/// (its entry in `table`), and its context then joins those of the states
/// that wait for it. Returns the satisfied blocks in that order, each with
/// the calls of its states (see `calls_of`). Blocks left waiting, a
/// constraint that still waits for something when its turn comes, a
/// constraint that no program fits, and two contexts that bind a key to two
/// values where they meet are fatal errors; the requirements exclude those
/// inputs (the last by asking that the contexts that meet agree, see
/// `contexts_agree`).
pub fn satisfy_constraints(
    blocks: Vec<UnsatisfiedBlock>,
    preferences: &Vec<Dialect>,
    programs: &Vec<(String, Vec<Program>)>,
    table: &Vec<(TaskId, ComputedArgs)>,
) -> (r: Vec<SatisfiedBlock>)
    requires
        names_unique(blocks_view(blocks@)),
        schedule(blocks_view(blocks@), blocks@.len()).1.len() == 0,
        state_keys_unique(blocks@),
        states_fresh(blocks@, preferences@, programs@, table@),
        contexts_agree(blocks@, table@),
        waits_on_earlier(blocks@, schedule(blocks_view(blocks@), blocks@.len()).0),
    ensures
        r@.len() == blocks@.len(),
        forall|p: int| 0 <= p < r@.len() ==> (#[trigger] r@[p]).name@ == schedule(blocks_view(blocks@), blocks@.len()).0[p],
        forall|p: int| 0 <= p < r@.len() ==> exists|j0: int| 0 <= j0 < blocks@.len() && blocks@[j0].name@ == (#[trigger] r@[p]).name@
            && r@[p].constraints@.len() == blocks@[j0].constraints@.len()
            && forall|k: int| 0 <= k < r@[p].constraints@.len() ==> done_state(#[trigger] r@[p].constraints@[k], blocks@[j0].constraints@[k], table@),
        forall|p: int| 0 <= p < r@.len() ==> calls_view((#[trigger] r@[p]).calls@) == calls_of(r@[p].constraints@),
{
    let ghost bs0 = blocks@;
    let ghost bv0 = blocks_view(bs0);
    let ghost n0 = bs0.len();
    let ghost order = schedule(bv0, n0).0;
    let mut rem = blocks;
    let mut out: Vec<SatisfiedBlock> = Vec::new();
    let ghost mut done: Seq<Seq<char>> = Seq::empty();
    let ghost mut es: Seq<(IdView, u128)> = Seq::empty();
    proof {
        lemma_schedule_after_dependencies(bv0, n0);
        lemma_run_start(bs0, preferences@, programs@, table@);
    }
    loop
        invariant
            bs0.len() == n0,
            bv0 == blocks_view(bs0),
            order == schedule(bv0, n0).0,
            schedule(bv0, n0).1.len() == 0,
            run_facts(bs0, preferences@, programs@, table@),
            run_inv(bs0, rem@, out@, done, es, preferences@, programs@, table@),
            forall|p: int| 0 <= p < out@.len() ==> calls_view((#[trigger] out@[p]).calls@) == calls_of(out@[p].constraints@),
        ensures
            run_inv(bs0, rem@, out@, done, es, preferences@, programs@, table@),
            forall|p: int| 0 <= p < out@.len() ==> calls_view((#[trigger] out@[p]).calls@) == calls_of(out@[p].constraints@),
            done == order,
            out@.len() == n0,
        decreases rem@.len(),
    {
        let ghost cur = rem@;
        let found = find_satisfiable_constraint_block(&mut rem);
        match found {
            None => {
                proof {
                    lemma_run_end(bs0, cur, out@, done, es, preferences@, programs@, table@);
                    assert(rem@ == cur);
                }
                break;
            },
            Some((mut states, name)) => {
                let ghost i = first_ready_from(blocks_view(cur), 0)->0;
                proof {
                    lemma_first_ready(blocks_view(cur), 0);
                }
                let ghost before = states@;
                let ghost r1 = rem@;
                let pi = find_programs(programs, &name);
                let empty: Vec<Program> = Vec::new();
                let progs: &Vec<Program> = match pi {
                    Some(x) => &programs[x].1,
                    None => &empty,
                };
                proof {
                    lemma_run_ready(bs0, cur, r1, out@, done, es, preferences@, programs@, table@, i, progs@);
                }
                let mut calls: Vec<((String, String, String), Vec<(String, ParameterTuple)>)> = Vec::new();
                proof {
                    assert(calls_view(calls@) =~= Seq::<(CallKey, Seq<CallItem>)>::empty());
                }
                satisfy_block_states(&mut states, &mut calls, &mut rem, preferences, progs, table, Ghost(bs0));
                let ghost r2 = rem@;
                let ghost after = states@;
                let ghost o1 = out@;
                out.push(SatisfiedBlock { name, constraints: states, calls });
                proof {
                    lemma_run_step(bs0, cur, r1, r2, before, after, o1, out@, done, es, preferences@, programs@, table@, i, progs@);
                    done = done.push(cur[i].name@);
                    es = es + entries_of(before);
                }
            },
        }
    }
    out
}

/// The names in order of their last occurrence, each once (what inserting
/// them one by one into an insertion-ordered set gives, since inserting a
/// name again moves it to the end).
pub open spec fn dedup_last(s: Seq<Seq<char>>) -> Seq<Seq<char>>
    decreases s.len(),
{
    if s.len() == 0 {
        s
    } else {
        without(dedup_last(s.drop_last()), s.last()).push(s.last())
    }
}

/// The states of `s` with the given constraint name, in order.
pub open spec fn with_name(s: Seq<ConstraintState>, name: Seq<char>) -> Seq<ConstraintState>
    decreases s.len(),
{
    if s.len() == 0 {
        s
    } else {
        let r = with_name(s.drop_last(), name);
        if s.last().name@ == name {
            r.push(s.last())
        } else {
            r
        }
    }
}

/// The names of the entries.
pub open spec fn entry_names(required: Seq<(String, Vec<String>)>) -> Seq<Seq<char>> {
    required.map_values(|e: (String, Vec<String>)| e.0@)
}

/// The names as an insertion-ordered set (a `LinkedHashSet`), each once,
/// in order of their last occurrence (see `dedup_last`): the set of names
/// that `get_relevant_builders` starts from and `attach_constraints`
/// records visits in.
pub fn collect_names(names: &Vec<String>) -> (r: LinkedHashSet<String, RandomState>)
    ensures
        name_set_items(r) == dedup_last(strs_view(names@)),
{
    let ghost s = strs_view(names@);
    let mut r = name_set_new();
    let mut i: usize = 0;
    while i < names.len()
        invariant
            i <= names@.len(),
            s == strs_view(names@),
            name_set_items(r) == dedup_last(s.take(i as int)),
        decreases names@.len() - i,
    {
        proof {
            assert(s.take(i as int + 1).drop_last() =~= s.take(i as int));
            assert(s.take(i as int + 1).last() == names@[i as int]@);
        }
        name_set_insert(&mut r, names[i].clone());
        i = i + 1;
    }
    proof {
        assert(s.take(i as int) =~= s);
    }
    r
}

/// Puts each state into the block of its constraint name. The blocks come in
/// the order of `required`, which lists each constraint name (once) with
/// the names it requires; a block waits for those names, each once, in the
/// order of their last occurrence. Each block holds the states of its name in
/// their order. A state whose name is not listed is a fatal error; those
/// inputs are excluded.
pub fn group_into_blocks(states: Vec<ConstraintState>, required: &Vec<(String, Vec<String>)>) -> (r: Vec<UnsatisfiedBlock>)
    requires
        forall|i: int, j: int| 0 <= i < required@.len() && 0 <= j < required@.len() && i != j ==> required@[i].0@ != required@[j].0@,
        forall|k: int| 0 <= k < states@.len() ==> entry_names(required@).contains(#[trigger] states@[k].name@),
    ensures
        r@.len() == required@.len(),
        forall|j: int| 0 <= j < r@.len() ==> (#[trigger] r@[j]).name@ == required@[j].0@
            && name_set_items(r@[j].dependency_names) == dedup_last(strs_view(required@[j].1@))
            && r@[j].constraints@ == with_name(states@, required@[j].0@),
{
    let mut blocks: Vec<UnsatisfiedBlock> = Vec::new();
    let mut j: usize = 0;
    while j < required.len()
        invariant
            j <= required@.len(),
            blocks@.len() == j,
            forall|p: int| 0 <= p < j ==> (#[trigger] blocks@[p]).name@ == required@[p].0@
                && name_set_items(blocks@[p].dependency_names) == dedup_last(strs_view(required@[p].1@))
                && blocks@[p].constraints@ == Seq::<ConstraintState>::empty(),
        decreases required@.len() - j,
    {
        let deps = collect_names(&required[j].1);
        blocks.push(UnsatisfiedBlock { name: required[j].0.clone(), dependency_names: deps, constraints: Vec::new() });
        j = j + 1;
    }
    let ghost s0 = states@;
    let mut src = states;
    let ghost mut i: int = 0;
    while src.len() > 0
        invariant
            0 <= i <= s0.len(),
            src@ == s0.skip(i),
            blocks@.len() == required@.len(),
            forall|i1: int, i2: int| 0 <= i1 < required@.len() && 0 <= i2 < required@.len() && i1 != i2 ==> required@[i1].0@ != required@[i2].0@,
            forall|k: int| 0 <= k < s0.len() ==> entry_names(required@).contains(#[trigger] s0[k].name@),
            forall|p: int| 0 <= p < blocks@.len() ==> (#[trigger] blocks@[p]).name@ == required@[p].0@
                && name_set_items(blocks@[p].dependency_names) == dedup_last(strs_view(required@[p].1@))
                && blocks@[p].constraints@ == with_name(s0.take(i), required@[p].0@),
        decreases src@.len(),
    {
        let st = src.remove(0);
        proof {
            assert(st == s0[i]);
            assert(entry_names(required@).contains(s0[i].name@));
        }
        let mut p: usize = 0;
        while p < blocks.len() && !str_eq(blocks[p].name.as_str(), st.name.as_str())
            invariant
                p <= blocks@.len(),
                blocks@.len() == required@.len(),
                forall|q: int| 0 <= q < blocks@.len() ==> (#[trigger] blocks@[q]).name@ == required@[q].0@,
                forall|q: int| 0 <= q < p ==> required@[q].0@ != st.name@,
                entry_names(required@).contains(st.name@),
            decreases blocks@.len() - p,
        {
            p = p + 1;
        }
        proof {
            if p == blocks@.len() {
                let w = choose|w: int| 0 <= w < entry_names(required@).len() && entry_names(required@)[w] == st.name@;
                assert(required@[w].0@ == st.name@);
            }
        }
        let ghost bb = blocks@;
        let mut b = blocks.remove(p);
        b.constraints.push(st);
        blocks.insert(p, b);
        proof {
            assert(s0.take(i + 1).drop_last() =~= s0.take(i));
            assert(s0.take(i + 1).last() == s0[i]);
            assert forall|q: int| 0 <= q < blocks@.len() implies (#[trigger] blocks@[q]).name@ == required@[q].0@
                && name_set_items(blocks@[q].dependency_names) == dedup_last(strs_view(required@[q].1@))
                && blocks@[q].constraints@ == with_name(s0.take(i + 1), required@[q].0@) by {
                if q != p {
                    assert(blocks@[q] == bb[q]);
                    assert(required@[q].0@ != st.name@);
                }
            }
            i = i + 1;
            assert(src@ =~= s0.skip(i));
        }
    }
    proof {
        assert(s0.take(i) =~= s0);
    }
    blocks
}

/// The blocks of unsatisfied constraints: the states are pruned of
/// superfluous dummy tasks and then of dangling ones (see
/// `remove_superfluous_dummy_tasks` and `remove_dangling_dummy_tasks`), and
/// grouped by constraint name (see `group_into_blocks`).
pub fn get_unsatisfied_constraints(states: Vec<ConstraintState>, required: &Vec<(String, Vec<String>)>) -> (r: Vec<UnsatisfiedBlock>)
    requires
        all_wf(states@),
        keys_unique(graph_view(states@)),
        superfluous_safe(graph_view(states@), states@.len()),
        forall|i: int, j: int| 0 <= i < required@.len() && 0 <= j < required@.len() && i != j ==> required@[i].0@ != required@[j].0@,
        forall|k: int| 0 <= k < states@.len() ==> entry_names(required@).contains(#[trigger] states@[k].name@),
    ensures
        exists|pruned: Seq<ConstraintState>| {
            &&& all_wf(pruned)
            &&& derived_from(pruned, states@)
            &&& graph_view(pruned) == prune(
                remove_superfluous(graph_view(states@), states@.len()),
                dangling_closure(remove_superfluous(graph_view(states@), states@.len())),
            )
            &&& r@.len() == required@.len()
            &&& forall|j: int| 0 <= j < r@.len() ==> (#[trigger] r@[j]).name@ == required@[j].0@
                && name_set_items(r@[j].dependency_names) == dedup_last(strs_view(required@[j].1@))
                && r@[j].constraints@ == with_name(pruned, required@[j].0@)
        },
{
    let mut s = states;
    let ghost s0 = s@;
    remove_superfluous_dummy_tasks(&mut s);
    let ghost s1 = s@;
    remove_dangling_dummy_tasks(&mut s);
    proof {
        crate::task_graph::lemma_derived_trans(s@, s1, s0);
        assert forall|k: int| 0 <= k < s@.len() implies entry_names(required@).contains(#[trigger] s@[k].name@) by {
            assert(crate::task_graph::has_origin(s@[k], s0));
            let j = choose|j: int| 0 <= j < s0.len() && crate::task_graph::same_but_deps(s@[k], #[trigger] s0[j]);
            assert(entry_names(required@).contains(s0[j].name@));
        }
    }
    let ghost pruned = s@;
    let r = group_into_blocks(s, required);
    r
}

/// The positions, in order, of the blocks among the first `n` that hold
/// some constraint.
pub open spec fn nonempty_blocks(bs: Seq<SatisfiedBlock>, n: int) -> Seq<int>
    decreases n,
{
    if n <= 0 {
        Seq::empty()
    } else {
        let r = nonempty_blocks(bs, n - 1);
        if bs[n - 1].constraints@.len() > 0 {
            r.push(n - 1)
        } else {
            r
        }
    }
}

/// Processes the satisfied blocks in order (see `merge_constraint_block`),
/// each under the snake-case form of its name; a block without
/// constraints gives nothing.
pub fn process_satisfied_blocks(blocks: Vec<SatisfiedBlock>) -> (r: Vec<(String, ProcessedBlock)>)
    ensures
        r@.len() == nonempty_blocks(blocks@, blocks@.len() as int).len(),
        forall|p: int| 0 <= p < r@.len() ==> {
            let b = blocks@[nonempty_blocks(blocks@, blocks@.len() as int)[p]];
            &&& (#[trigger] r@[p]).0@ == snake_case(b.name@)
            &&& processed_as(r@[p].1, b.constraints@, snake_case(b.name@))
        },
{
    let ghost b0 = blocks@;
    let mut out: Vec<(String, ProcessedBlock)> = Vec::new();
    let mut src = blocks;
    let ghost mut i: int = 0;
    while src.len() > 0
        invariant
            0 <= i <= b0.len(),
            src@ == b0.skip(i),
            out@.len() == nonempty_blocks(b0, i).len(),
            forall|p: int| 0 <= p < out@.len() ==> {
                let b = b0[nonempty_blocks(b0, i)[p]];
                &&& (#[trigger] out@[p]).0@ == snake_case(b.name@)
                &&& processed_as(out@[p].1, b.constraints@, snake_case(b.name@))
            },
        decreases src@.len(),
    {
        let b = src.remove(0);
        proof {
            assert(b == b0[i]);
        }
        let ghost o0 = out@;
        if b.constraints.len() > 0 {
            let name = to_snake_case(b.name.as_str());
            let processed = merge_constraint_block(b.constraints, &name);
            out.push((name, processed));
            proof {
                assert(nonempty_blocks(b0, i + 1) == nonempty_blocks(b0, i).push(i));
                assert forall|p: int| 0 <= p < out@.len() implies {
                    let bb = b0[nonempty_blocks(b0, i + 1)[p]];
                    &&& (#[trigger] out@[p]).0@ == snake_case(bb.name@)
                    &&& processed_as(out@[p].1, bb.constraints@, snake_case(bb.name@))
                } by {
                    if p < o0.len() {
                        assert(out@[p] == o0[p]);
                        assert(nonempty_blocks(b0, i + 1)[p] == nonempty_blocks(b0, i)[p]);
                    }
                }
            }
        } else {
            proof {
                assert(nonempty_blocks(b0, i + 1) == nonempty_blocks(b0, i));
            }
        }
        proof {
            i = i + 1;
            assert(src@ =~= b0.skip(i));
        }
    }
    proof {
        assert(b0.skip(i).len() == 0);
    }
    out
}

} // verus!

verus! {

/// `r` is what satisfying `blocks` gives (see `satisfy_constraints`): the
/// blocks in the order of `schedule`, each state done (see `done_state`).
pub open spec fn satisfied_as(r: Seq<SatisfiedBlock>, blocks: Seq<UnsatisfiedBlock>, table: Seq<(TaskId, ComputedArgs)>) -> bool {
    &&& r.len() == blocks.len()
    &&& forall|p: int| 0 <= p < r.len() ==> (#[trigger] r[p]).name@ == schedule(blocks_view(blocks), blocks.len()).0[p]
    &&& forall|p: int| 0 <= p < r.len() ==> exists|j0: int| 0 <= j0 < blocks.len() && blocks[j0].name@ == (#[trigger] r[p]).name@
        && r[p].constraints@.len() == blocks[j0].constraints@.len()
        && forall|k: int| 0 <= k < r[p].constraints@.len() ==> done_state(#[trigger] r[p].constraints@[k], blocks[j0].constraints@[k], table)
    &&& forall|p: int| 0 <= p < r.len() ==> calls_view((#[trigger] r[p]).calls@) == calls_of(r[p].constraints@)
}

/// `r` is what processing the satisfied blocks `sat` gives (see
/// `process_satisfied_blocks`): one entry for each block with constraints,
/// in order, under the snake-case form of its name.
pub open spec fn processed_blocks_as(r: Seq<(String, ProcessedBlock)>, sat: Seq<SatisfiedBlock>) -> bool {
    &&& r.len() == nonempty_blocks(sat, sat.len() as int).len()
    &&& forall|p: int| 0 <= p < r.len() ==> {
        let b = sat[nonempty_blocks(sat, sat.len() as int)[p]];
        &&& (#[trigger] r[p]).0@ == snake_case(b.name@)
        &&& processed_as(r[p].1, b.constraints@, snake_case(b.name@))
    }
}

/// The run over the blocks of unsatisfied constraints: satisfies them one
/// at a time in the order of `schedule` (see `satisfy_constraints`), and
/// processes each block that has constraints, in that order (see
/// `process_satisfied_blocks`): its tasks are merged, named and given their
/// dictionary. A block without constraints is taken out, so that the blocks
/// waiting for its name are released, and gives nothing. The fatal errors
/// are those of `satisfy_constraints`.
pub fn satisfy_and_process(
    blocks: Vec<UnsatisfiedBlock>,
    preferences: &Vec<Dialect>,
    programs: &Vec<(String, Vec<Program>)>,
    table: &Vec<(TaskId, ComputedArgs)>,
) -> (r: Vec<(String, ProcessedBlock)>)
    requires
        names_unique(blocks_view(blocks@)),
        schedule(blocks_view(blocks@), blocks@.len()).1.len() == 0,
        state_keys_unique(blocks@),
        states_fresh(blocks@, preferences@, programs@, table@),
        contexts_agree(blocks@, table@),
        waits_on_earlier(blocks@, schedule(blocks_view(blocks@), blocks@.len()).0),
    ensures
        exists|sat: Seq<SatisfiedBlock>| satisfied_as(sat, blocks@, table@) && processed_blocks_as(r@, sat),
{
    let sat = satisfy_constraints(blocks, preferences, programs, table);
    let ghost s = sat@;
    let r = process_satisfied_blocks(sat);
    proof {
        assert(satisfied_as(s, blocks@, table@));
        assert(processed_blocks_as(r@, s));
    }
    r
}

} // verus!
