//! The tasks of a code block: each satisfied state becomes a standalone
//! task, held by its task value, that calls its program with its parameters
//! after the tasks it depends on. The value of each task is recorded by the
//! UUID of its constraint, so that later blocks can refer to it. The whole
//! run, from unsatisfied blocks to code blocks, is `run_constraint_blocks`.
use vstd::prelude::*;
use std::collections::HashMap;
use crate::ancestor_record::opt_string_view;
use crate::ast::{AST, ASTView, asts_view, clone_ast, lemma_asts_view_push};
use crate::constraint_state::{ConstraintState, ParameterTuple, SatisfiedDependency, opt_args_view, opt_kwargs_view};
use crate::dialect::{Dialect, DialectView};
use crate::task_blocks::{ProcessedBlock, compute_task_vals, merge_constraint_block, opt_ast_view, processed_as, task_val_view};
use crate::ancestor_record::TaskId;
use crate::blocks::{UnsatisfiedBlock, blocks_view, names_unique, schedule};
use crate::constraint_state::{ComputedArgs, Program};
use crate::satisfaction::{
    SatisfiedBlock, blocks_ok, calls_after, calls_view, contexts_agree, entries_of, entry_ids_unique, processed, processed_blocks_as, progressed,
    ready, satisfied_as, satisfy_and_process, satisfy_block_states, state_keys_unique, states_fresh, waits_on_earlier,
};

verus! {

/// A task that runs on its own: its name, the value that holds it, the
/// program it calls (preamble, call, parameters, dialect), and the values of
/// the tasks it runs after.
pub struct StandaloneTask {
    pub task_name: String,
    pub task_val: AST,
    pub call: Option<String>,
    pub params: Option<ParameterTuple>,
    pub dependencies: Vec<AST>,
    pub preamble: Option<String>,
    pub dialect: Option<Dialect>,
}

/// A map of task values, by value.
pub open spec fn idents_view(m: Map<u128, AST>) -> Map<u128, ASTView> {
    m.map_values(|a: AST| a@)
}

/// The task value of each state, by the UUID of its constraint; where two
/// states share a UUID, the later one's.
pub open spec fn task_identifiers(members: Seq<ConstraintState>, tasks_dict: Option<ASTView>) -> Map<u128, ASTView>
    decreases members.len(),
{
    if members.len() == 0 {
        Map::empty()
    } else {
        task_identifiers(members.drop_last(), tasks_dict).insert(
            members.last().constraint_uuid,
            task_val_view(tasks_dict, members.last().task_name->0@),
        )
    }
}

/// The values of the tasks that a state runs after, in the order in which
/// its dependencies were satisfied.
pub open spec fn dependency_vals(s: ConstraintState, identifiers: Map<u128, ASTView>) -> Seq<ASTView> {
    s.satisfied_dependencies@.map_values(|d: SatisfiedDependency| identifiers[d.constraint_uuid])
}

/// Every dependency of the state has a task value.
pub open spec fn dependencies_known(s: ConstraintState, identifiers: Map<u128, ASTView>) -> bool {
    forall|k: int| 0 <= k < s.satisfied_dependencies@.len()
        ==> identifiers.contains_key(#[trigger] s.satisfied_dependencies@[k].constraint_uuid)
}

/// Parameters equal by value.
pub open spec fn same_params(a: Option<ParameterTuple>, b: Option<ParameterTuple>) -> bool {
    opt_args_view(a) == opt_args_view(b) && opt_kwargs_view(a) == opt_kwargs_view(b)
}

/// Dialects equal by value.
pub open spec fn same_dialect(a: Option<Dialect>, b: Option<Dialect>) -> bool {
    match (a, b) {
        (Some(x), Some(y)) => x@ == y@,
        (None, None) => true,
        _ => false,
    }
}

/// `t` is the task of state `s`, held by its task value, that runs after the
/// tasks of the values `identifiers` gives for its dependencies.
pub open spec fn task_of(t: StandaloneTask, s: ConstraintState, tasks_dict: Option<ASTView>, identifiers: Map<u128, ASTView>) -> bool {
    &&& t.task_name@ == s.task_name->0@
    &&& t.task_val@ == task_val_view(tasks_dict, s.task_name->0@)
    &&& opt_string_view(t.call) == opt_string_view(s.call)
    &&& same_params(t.params, s.params)
    &&& asts_view(t.dependencies@) == dependency_vals(s, identifiers)
    &&& opt_string_view(t.preamble) == opt_string_view(s.preamble)
    &&& same_dialect(t.dialect, s.dialect)
}

/// The task names of the states are set and pairwise distinct.
pub open spec fn names_distinct(members: Seq<ConstraintState>) -> bool {
    &&& forall|i: int| 0 <= i < members.len() ==> (#[trigger] members[i]).task_name is Some
    &&& forall|i: int, j: int| 0 <= i < members.len() && 0 <= j < members.len() && i != j
        ==> (#[trigger] members[i]).task_name->0@ != (#[trigger] members[j]).task_name->0@
}

fn dependency_values(s: &ConstraintState, identifiers: &HashMap<u128, AST>) -> (r: Vec<AST>)
    requires
        dependencies_known(*s, idents_view(identifiers@)),
    ensures
        asts_view(r@) == dependency_vals(*s, idents_view(identifiers@)),
{
    let uuids = s.get_dependencies();
    let mut r: Vec<AST> = Vec::new();
    let mut i: usize = 0;
    while i < uuids.len()
        invariant
            i <= uuids@.len(),
            uuids@ == s.satisfied_dependencies@.map_values(|d: SatisfiedDependency| d.constraint_uuid),
            dependencies_known(*s, idents_view(identifiers@)),
            asts_view(r@) == dependency_vals(*s, idents_view(identifiers@)).take(i as int),
        decreases uuids@.len() - i,
    {
        let ghost r0 = r@;
        proof {
            assert(uuids@[i as int] == s.satisfied_dependencies@[i as int].constraint_uuid);
            assert(identifiers@.contains_key(uuids@[i as int]));
        }
        match identifiers.get(&uuids[i]) {
            Some(v) => {
                proof {
                    assert(identifiers@[uuids@[i as int]] == *v);
                }
                let c = clone_ast(v);
                r.push(c);
                proof {
                    lemma_asts_view_push(r0, c);
                    assert(r@ == r0.push(c));
                    assert(idents_view(identifiers@)[uuids@[i as int]] == v@);
                    assert(asts_view(r@) =~= dependency_vals(*s, idents_view(identifiers@)).take(i as int + 1));
                }
            },
            None => {},
        }
        i = i + 1;
    }
    proof {
        assert(dependency_vals(*s, idents_view(identifiers@)).take(i as int) =~= dependency_vals(*s, idents_view(identifiers@)));
    }
    r
}

/// The standalone tasks of a code block: each state, in order, becomes its
/// task (see `task_of`), held by its task value (see `compute_task_vals`),
/// and runs after the tasks whose values `identifiers` gives for its
/// dependencies. Also gives the task value of each state by the UUID of its
/// constraint (see `task_identifiers`), and the parameters of each task by
/// its name, in order. Two states with one task name would be held by one
/// value, and a dependency without a value has no task to run after: both
/// are fatal errors, and those inputs are excluded.
pub fn create_standalone_tasks(
    members: Vec<ConstraintState>,
    tasks_dict: Option<AST>,
    identifiers: &HashMap<u128, AST>,
) -> (r: (Vec<StandaloneTask>, HashMap<u128, AST>, Vec<(String, Option<ParameterTuple>)>))
    requires
        names_distinct(members@),
        forall|i: int| 0 <= i < members@.len() ==> dependencies_known(#[trigger] members@[i], idents_view(identifiers@)),
    ensures
        r.0@.len() == members@.len(),
        forall|i: int| 0 <= i < members@.len()
            ==> task_of(#[trigger] r.0@[i], members@[i], opt_ast_view(tasks_dict), idents_view(identifiers@)),
        idents_view(r.1@) == task_identifiers(members@, opt_ast_view(tasks_dict)),
        r.2@.len() == members@.len(),
        forall|i: int| 0 <= i < members@.len() ==> (#[trigger] r.2@[i]).0@ == members@[i].task_name->0@
            && same_params(r.2@[i].1, members@[i].params),
{
    let ghost m0 = members@;
    let ghost td = opt_ast_view(tasks_dict);
    let vals = compute_task_vals(members, &tasks_dict);
    let mut tasks: Vec<StandaloneTask> = Vec::new();
    let mut task_identifiers_map: HashMap<u128, AST> = HashMap::new();
    let mut params: Vec<(String, Option<ParameterTuple>)> = Vec::new();
    let mut i: usize = 0;
    while i < vals.len()
        invariant
            vals@.len() == m0.len(),
            i <= vals@.len(),
            names_distinct(m0),
            forall|k: int| 0 <= k < vals@.len() ==> (#[trigger] vals@[k]).1 == m0[k]
                && vals@[k].0@ == task_val_view(td, m0[k].task_name->0@),
            forall|k: int| 0 <= k < m0.len() ==> dependencies_known(#[trigger] m0[k], idents_view(identifiers@)),
            tasks@.len() == i,
            forall|k: int| 0 <= k < i ==> task_of(#[trigger] tasks@[k], m0[k], td, idents_view(identifiers@)),
            idents_view(task_identifiers_map@) == task_identifiers(m0.take(i as int), td),
            params@.len() == i,
            forall|k: int| 0 <= k < i ==> (#[trigger] params@[k]).0@ == m0[k].task_name->0@
                && same_params(params@[k].1, m0[k].params),
        decreases vals@.len() - i,
    {
        let ast = &vals[i].0;
        let x = &vals[i].1;
        proof {
            assert(*x == m0[i as int]);
        }
        let ghost old_map = task_identifiers_map@;
        task_identifiers_map.insert(x.constraint_uuid, clone_ast(ast));
        proof {
            assert(m0.take(i as int + 1).drop_last() =~= m0.take(i as int));
            assert(m0.take(i as int + 1).last() == m0[i as int]);
            assert(idents_view(task_identifiers_map@) =~= idents_view(old_map).insert(
                x.constraint_uuid,
                task_val_view(td, m0[i as int].task_name->0@),
            ));
        }
        params.push((x.get_task_name(), x.get_params()));
        let dependencies = dependency_values(x, identifiers);
        let task = StandaloneTask {
            task_name: x.get_task_name(),
            task_val: clone_ast(ast),
            call: x.get_call(),
            params: x.get_params(),
            dependencies,
            preamble: x.get_preamble(),
            dialect: x.get_dialect(),
        };
        tasks.push(task);
        i = i + 1;
    }
    proof {
        assert(m0.take(i as int) =~= m0);
    }
    (tasks, task_identifiers_map, params)
}

/// `m` with each of `keys`, in order, mapped to `v`.
pub open spec fn insert_all(m: Map<u128, ASTView>, keys: Seq<u128>, v: ASTView) -> Map<u128, ASTView>
    decreases keys.len(),
{
    if keys.len() == 0 {
        m
    } else {
        insert_all(m, keys.drop_last(), v).insert(keys.last(), v)
    }
}

/// The map of task values after a code block has been added: for each entry
/// of `mappings`, in order, whose UUID the block holds a task value for, the
/// UUIDs that task stands for and then its own UUID get that value.
pub open spec fn registered(
    ids: Map<u128, ASTView>,
    block_ids: Map<u128, ASTView>,
    mappings: Seq<(u128, Seq<u128>)>,
) -> Map<u128, ASTView>
    decreases mappings.len(),
{
    if mappings.len() == 0 {
        ids
    } else {
        let prev = registered(ids, block_ids, mappings.drop_last());
        let (k, ms) = mappings.last();
        if block_ids.contains_key(k) {
            insert_all(prev, ms, block_ids[k]).insert(k, block_ids[k])
        } else {
            prev
        }
    }
}

/// No UUID has two mappings.
pub open spec fn mapping_keys_unique(m: Seq<(u128, Vec<u128>)>) -> bool {
    forall|i: int, j: int| 0 <= i < m.len() && 0 <= j < m.len() && i != j ==> m[i].0 != m[j].0
}

/// The UUID mappings by value.
pub open spec fn mappings_view(m: Seq<(u128, Vec<u128>)>) -> Seq<(u128, Seq<u128>)> {
    m.map_values(|e: (u128, Vec<u128>)| (e.0, e.1@))
}

/// `insert_all` forgets no key.
pub proof fn lemma_insert_all_keeps(m: Map<u128, ASTView>, keys: Seq<u128>, v: ASTView, k: u128)
    requires
        m.contains_key(k),
    ensures
        insert_all(m, keys, v).contains_key(k),
    decreases keys.len(),
{
    if keys.len() > 0 {
        lemma_insert_all_keeps(m, keys.drop_last(), v, k);
    }
}

/// Adding a block's task values forgets no UUID.
pub proof fn lemma_registered_keeps(
    ids: Map<u128, ASTView>,
    block_ids: Map<u128, ASTView>,
    mappings: Seq<(u128, Seq<u128>)>,
    k: u128,
)
    requires
        ids.contains_key(k),
    ensures
        registered(ids, block_ids, mappings).contains_key(k),
    decreases mappings.len(),
{
    if mappings.len() > 0 {
        lemma_registered_keeps(ids, block_ids, mappings.drop_last(), k);
        let prev = registered(ids, block_ids, mappings.drop_last());
        lemma_insert_all_keeps(prev, mappings.last().1, block_ids[mappings.last().0], k);
    }
}

/// After `insert_all`, a key among `keys` has the value inserted; any
/// other key is as it was.
pub proof fn lemma_insert_all(m: Map<u128, ASTView>, keys: Seq<u128>, v: ASTView, u: u128)
    ensures
        keys.contains(u) ==> insert_all(m, keys, v).contains_key(u) && insert_all(m, keys, v)[u] == v,
        !keys.contains(u) ==> insert_all(m, keys, v).contains_key(u) == m.contains_key(u)
            && insert_all(m, keys, v)[u] == m[u],
    decreases keys.len(),
{
    if keys.len() > 0 {
        lemma_insert_all(m, keys.drop_last(), v, u);
        if keys.contains(u) && keys.last() != u {
            let k = choose|k: int| 0 <= k < keys.len() && keys[k] == u;
            assert(keys.drop_last()[k] == u);
        }
        if keys.drop_last().contains(u) {
            let k = choose|k: int| 0 <= k < keys.drop_last().len() && keys.drop_last()[k] == u;
            assert(keys[k] == u);
        }
    }
}

/// The mapping `e` is of UUID `u`: the task's own or one it stands for.
pub open spec fn stands_for(e: (u128, Seq<u128>), u: u128) -> bool {
    e.0 == u || e.1.contains(u)
}

/// Once a code block's task values are recorded, every UUID that one of its
/// tasks stands for (and the task's own) has that task's value, and every
/// other UUID keeps the value it had; provided no UUID is claimed by two
/// mappings.
pub proof fn lemma_registered_resolves(
    ids: Map<u128, ASTView>,
    block_ids: Map<u128, ASTView>,
    maps: Seq<(u128, Seq<u128>)>,
    u: u128,
)
    requires
        forall|i: int, j: int| 0 <= i < maps.len() && 0 <= j < maps.len() && i != j
            ==> !(stands_for(#[trigger] maps[i], u) && stands_for(#[trigger] maps[j], u)),
    ensures
        forall|j: int| 0 <= j < maps.len() && block_ids.contains_key(maps[j].0) && stands_for(#[trigger] maps[j], u)
            ==> registered(ids, block_ids, maps).contains_key(u)
                && registered(ids, block_ids, maps)[u] == block_ids[maps[j].0],
        (forall|j: int| 0 <= j < maps.len() ==> !(block_ids.contains_key(maps[j].0) && stands_for(#[trigger] maps[j], u)))
            ==> registered(ids, block_ids, maps).contains_key(u) == ids.contains_key(u)
                && registered(ids, block_ids, maps)[u] == ids[u],
    decreases maps.len(),
{
    if maps.len() > 0 {
        let init = maps.drop_last();
        assert forall|i: int, j: int| 0 <= i < init.len() && 0 <= j < init.len() && i != j
            implies !(stands_for(#[trigger] init[i], u) && stands_for(#[trigger] init[j], u)) by {
            assert(init[i] == maps[i] && init[j] == maps[j]);
        }
        lemma_registered_resolves(ids, block_ids, init, u);
        let prev = registered(ids, block_ids, init);
        let (k, ms) = maps.last();
        if block_ids.contains_key(k) {
            lemma_insert_all(prev, ms, block_ids[k], u);
        }
        let last = maps.len() - 1;
        assert forall|j: int| 0 <= j < maps.len() && block_ids.contains_key(maps[j].0) && stands_for(#[trigger] maps[j], u)
            implies registered(ids, block_ids, maps).contains_key(u)
                && registered(ids, block_ids, maps)[u] == block_ids[maps[j].0] by {
            if j < last {
                assert(init[j] == maps[j]);
                assert(!stands_for(maps[last], u));
            }
        }
        if forall|j: int| 0 <= j < maps.len() ==> !(block_ids.contains_key(maps[j].0) && stands_for(#[trigger] maps[j], u)) {
            assert forall|j: int| 0 <= j < init.len() implies !(block_ids.contains_key(init[j].0) && stands_for(#[trigger] init[j], u)) by {
                assert(init[j] == maps[j]);
            }
            assert(!(block_ids.contains_key(maps[last].0) && stands_for(maps[last], u)));
        }
    }
}

/// Records the task values of a code block (`block_identifiers`, by the UUID
/// of each task's constraint) for the constraints each task stands for (see
/// `registered`). The mappings hold each UUID once, and each UUID of the
/// block has one; a UUID of the block without a mapping is a fatal error,
/// and those inputs are excluded.
pub fn register_identifiers(
    identifiers: &mut HashMap<u128, AST>,
    block_identifiers: &HashMap<u128, AST>,
    uuid_mappings: &Vec<(u128, Vec<u128>)>,
)
    requires
        mapping_keys_unique(uuid_mappings@),
        forall|k: u128| #[trigger] block_identifiers@.contains_key(k)
            ==> exists|j: int| 0 <= j < uuid_mappings@.len() && #[trigger] uuid_mappings@[j].0 == k,
    ensures
        idents_view(final(identifiers)@) == registered(
            idents_view(old(identifiers)@),
            idents_view(block_identifiers@),
            mappings_view(uuid_mappings@),
        ),
{
    let ghost ids0 = idents_view(identifiers@);
    let ghost bids = idents_view(block_identifiers@);
    let ghost maps = mappings_view(uuid_mappings@);
    let mut j: usize = 0;
    while j < uuid_mappings.len()
        invariant
            j <= uuid_mappings@.len(),
            bids == idents_view(block_identifiers@),
            maps == mappings_view(uuid_mappings@),
            idents_view(identifiers@) == registered(ids0, bids, maps.take(j as int)),
        decreases uuid_mappings@.len() - j,
    {
        proof {
            assert(maps.take(j as int + 1).drop_last() =~= maps.take(j as int));
            assert(maps.take(j as int + 1).last() == (uuid_mappings@[j as int].0, uuid_mappings@[j as int].1@));
        }
        let key = uuid_mappings[j].0;
        match block_identifiers.get(&key) {
            Some(val) => {
                let ghost prev = idents_view(identifiers@);
                let mapped = &uuid_mappings[j].1;
                let mut q: usize = 0;
                while q < mapped.len()
                    invariant
                        q <= mapped@.len(),
                        mapped@ == uuid_mappings@[j as int].1@,
                        idents_view(identifiers@) == insert_all(prev, mapped@.take(q as int), val@),
                    decreases mapped@.len() - q,
                {
                    let ghost before = identifiers@;
                    identifiers.insert(mapped[q], clone_ast(val));
                    proof {
                        assert(mapped@.take(q as int + 1).drop_last() =~= mapped@.take(q as int));
                        assert(idents_view(identifiers@) =~= idents_view(before).insert(mapped@[q as int], val@));
                    }
                    q = q + 1;
                }
                proof {
                    assert(mapped@.take(q as int) =~= mapped@);
                    assert(block_identifiers@[key] == *val);
                }
                let ghost before = identifiers@;
                identifiers.insert(key, clone_ast(val));
                proof {
                    assert(idents_view(identifiers@) =~= idents_view(before).insert(key, val@));
                }
            },
            None => {},
        }
        j = j + 1;
    }
    proof {
        assert(maps.take(j as int) =~= maps);
    }
}

/// The positions, in order, of the states with dialect `d` among the first
/// `n`.
pub open spec fn dialect_positions(s: Seq<ConstraintState>, d: Option<DialectView>, n: int) -> Seq<int>
    decreases n,
{
    if n <= 0 {
        Seq::empty()
    } else {
        let r = dialect_positions(s, d, n - 1);
        if s[n - 1].dialect_view() == d {
            r.push(n - 1)
        } else {
            r
        }
    }
}

/// The dialects of the first `n` states, each once, in order of first
/// appearance.
pub open spec fn first_dialects(s: Seq<ConstraintState>, n: int) -> Seq<Option<DialectView>>
    decreases n,
{
    if n <= 0 {
        Seq::empty()
    } else {
        let r = first_dialects(s, n - 1);
        if r.contains(s[n - 1].dialect_view()) {
            r
        } else {
            r.push(s[n - 1].dialect_view())
        }
    }
}

pub proof fn lemma_first_dialects(s: Seq<ConstraintState>, n: int, d: Option<DialectView>)
    requires
        0 <= n <= s.len(),
    ensures
        first_dialects(s, n).no_duplicates(),
        !first_dialects(s, n).contains(d) ==> dialect_positions(s, d, n).len() == 0,
        first_dialects(s, n).contains(d) ==> dialect_positions(s, d, n).len() > 0,
    decreases n,
{
    if n > 0 {
        lemma_first_dialects(s, n - 1, d);
        lemma_first_dialects(s, n - 1, s[n - 1].dialect_view());
        let r = first_dialects(s, n - 1);
        let x = s[n - 1].dialect_view();
        if r.contains(x) {
            assert(first_dialects(s, n) == r);
        } else {
            assert(first_dialects(s, n) == r.push(x));
            assert(r.push(x)[r.len() as int] == x);
            if r.contains(d) {
                let k = choose|k: int| 0 <= k < r.len() && r[k] == d;
                assert(r.push(x)[k] == d);
            }
        }
        if !r.contains(x) {
            let rp = r.push(s[n - 1].dialect_view());
            assert forall|i: int, j: int| 0 <= i < rp.len() && 0 <= j < rp.len() && i != j
                implies #[trigger] rp[i] != #[trigger] rp[j] by {
                if j == r.len() {
                    assert(r.contains(r[i]));
                }
                if i == r.len() {
                    assert(r.contains(r[j]));
                }
            }
            if first_dialects(s, n).contains(d) && d != s[n - 1].dialect_view() {
                let k = choose|k: int| 0 <= k < first_dialects(s, n).len() && first_dialects(s, n)[k] == d;
                assert(r[k] == d);
            }
        }
    }
}

/// `grp` holds, with their UUID mappings, the states with dialect `d` among
/// the first `n`, in order.
pub open spec fn group_of(
    grp: (Vec<ConstraintState>, Vec<(u128, Vec<u128>)>),
    s: Seq<ConstraintState>,
    maps: Seq<(u128, Vec<u128>)>,
    d: Option<DialectView>,
    n: int,
) -> bool {
    let pos = dialect_positions(s, d, n);
    &&& grp.0@.len() == pos.len()
    &&& grp.1@.len() == pos.len()
    &&& forall|p: int| #![trigger grp.0@[p]] #![trigger grp.1@[p]] 0 <= p < pos.len() ==> grp.0@[p] == s[pos[p]] && grp.1@[p] == maps[pos[p]]
}

fn same_opt_dialect(a: &Option<Dialect>, b: &Option<Dialect>) -> (r: bool)
    ensures
        r == same_dialect(*a, *b),
{
    match (a, b) {
        (Some(x), Some(y)) => x.equals(y),
        (None, None) => true,
        _ => false,
    }
}

/// The states of a processed block split by dialect, each with its UUID
/// mapping: one group for each dialect, in order of first appearance (see
/// `first_dialects`); each group holds the states of its dialect in their
/// order (see `dialect_positions`).
pub fn split_by_dialect(
    members: Vec<ConstraintState>,
    uuid_mappings: Vec<(u128, Vec<u128>)>,
) -> (r: Vec<(Vec<ConstraintState>, Vec<(u128, Vec<u128>)>)>)
    requires
        uuid_mappings@.len() == members@.len(),
    ensures
        r@.len() == first_dialects(members@, members@.len() as int).len(),
        forall|g: int| 0 <= g < r@.len() ==> group_of(
            #[trigger] r@[g],
            members@,
            uuid_mappings@,
            first_dialects(members@, members@.len() as int)[g],
            members@.len() as int,
        ),
{
    let ghost m0 = members@;
    let ghost u0 = uuid_mappings@;
    let mut groups: Vec<(Vec<ConstraintState>, Vec<(u128, Vec<u128>)>)> = Vec::new();
    let mut dialects: Vec<Option<Dialect>> = Vec::new();
    let mut ms = members;
    let mut us = uuid_mappings;
    let ghost mut i: int = 0;
    while ms.len() > 0
        invariant
            0 <= i <= m0.len(),
            m0.len() == u0.len(),
            ms@ == m0.skip(i),
            us@ == u0.skip(i),
            groups@.len() == first_dialects(m0, i).len(),
            dialects@.len() == groups@.len(),
            forall|g: int| 0 <= g < dialects@.len() ==> match (#[trigger] dialects@[g]) {
                Some(x) => first_dialects(m0, i)[g] == Some(x@),
                None => first_dialects(m0, i)[g] is None,
            },
            forall|g: int| 0 <= g < groups@.len() ==> group_of(#[trigger] groups@[g], m0, u0, first_dialects(m0, i)[g], i),
        decreases ms@.len(),
    {
        let st = ms.remove(0);
        let mp = us.remove(0);
        proof {
            assert(st == m0[i]);
            assert(mp == u0[i]);
            lemma_first_dialects(m0, i, m0[i].dialect_view());
        }
        let ghost fd = first_dialects(m0, i);
        let ghost d = st.dialect_view();
        let mut g: usize = 0;
        while g < dialects.len() && !same_opt_dialect(&dialects[g], &st.dialect)
            invariant
                g <= dialects@.len(),
                dialects@.len() == fd.len(),
                forall|k: int| 0 <= k < dialects@.len() ==> match (#[trigger] dialects@[k]) {
                    Some(x) => fd[k] == Some(x@),
                    None => fd[k] is None,
                },
                forall|k: int| 0 <= k < g ==> fd[k] != d,
                d == st.dialect_view(),
            decreases dialects@.len() - g,
        {
            g = g + 1;
        }
        proof {
            assert(m0.take(i + 1).len() == i + 1);
        }
        if g < dialects.len() {
            proof {
                assert(fd[g as int] == d);
                assert(fd.contains(d));
                assert(first_dialects(m0, i + 1) == fd);
            }
            let ghost gs = groups@;
            let mut grp = groups.remove(g);
            grp.0.push(st);
            grp.1.push(mp);
            groups.insert(g, grp);
            proof {
                assert forall|k: int| 0 <= k < groups@.len() implies group_of(#[trigger] groups@[k], m0, u0, first_dialects(m0, i + 1)[k], i + 1) by {
                    if k != g {
                        assert(groups@[k] == gs[k]);
                        assert(fd[k] != fd[g as int]);
                        assert(dialect_positions(m0, fd[k], i + 1) == dialect_positions(m0, fd[k], i));
                        assert(group_of(gs[k], m0, u0, fd[k], i));
                    } else {
                        let pos0 = dialect_positions(m0, fd[k], i);
                        assert(group_of(gs[k], m0, u0, fd[k], i));
                        assert(dialect_positions(m0, fd[k], i + 1) == pos0.push(i));
                        assert forall|p: int| 0 <= p < pos0.len() + 1 implies (#[trigger] groups@[k].0@[p]) == m0[pos0.push(i)[p]]
                            && groups@[k].1@[p] == u0[pos0.push(i)[p]] by {
                            if p < pos0.len() {
                                assert(groups@[k].0@[p] == gs[k].0@[p]);
                                assert(groups@[k].1@[p] == gs[k].1@[p]);
                            }
                        }
                    }
                }
            }
        } else {
            proof {
                assert(!fd.contains(d));
                lemma_first_dialects(m0, i, d);
                assert(first_dialects(m0, i + 1) == fd.push(d));
            }
            let dl = st.get_dialect();
            let ghost gs = groups@;
            let mut v0: Vec<ConstraintState> = Vec::new();
            v0.push(st);
            let mut v1: Vec<(u128, Vec<u128>)> = Vec::new();
            v1.push(mp);
            groups.push((v0, v1));
            dialects.push(dl);
            proof {
                assert(dialect_positions(m0, d, i).len() == 0);
                assert(dialect_positions(m0, d, i + 1) =~= seq![i]);
                assert forall|k: int| 0 <= k < groups@.len() implies group_of(#[trigger] groups@[k], m0, u0, first_dialects(m0, i + 1)[k], i + 1) by {
                    if k < gs.len() {
                        assert(groups@[k] == gs[k]);
                        assert(fd[k] != d);
                        assert(first_dialects(m0, i + 1)[k] == fd[k]);
                        assert(dialect_positions(m0, fd[k], i + 1) == dialect_positions(m0, fd[k], i));
                        assert(group_of(gs[k], m0, u0, fd[k], i));
                    } else {
                        assert(first_dialects(m0, i + 1)[k] == d);
                        assert(groups@[k].0@ =~= seq![m0[i]]);
                        assert(groups@[k].1@ =~= seq![u0[i]]);
                    }
                }
            }
        }
        proof {
            i = i + 1;
            assert(ms@ =~= m0.skip(i));
            assert(us@ =~= u0.skip(i));
        }
    }
    proof {
        assert(m0.skip(i).len() == 0);
    }
    groups
}

pub proof fn lemma_dialect_positions(s: Seq<ConstraintState>, d: Option<DialectView>, n: int)
    requires
        0 <= n <= s.len(),
    ensures
        forall|p: int| 0 <= p < dialect_positions(s, d, n).len() ==> 0 <= #[trigger] dialect_positions(s, d, n)[p] < n
            && s[dialect_positions(s, d, n)[p]].dialect_view() == d,
        forall|p: int, q: int| 0 <= p < q < dialect_positions(s, d, n).len()
            ==> #[trigger] dialect_positions(s, d, n)[p] < #[trigger] dialect_positions(s, d, n)[q],
    decreases n,
{
    if n > 0 {
        lemma_dialect_positions(s, d, n - 1);
    }
}

/// The states of the `g`-th dialect group (see `split_by_dialect`).
pub open spec fn group_members(s: Seq<ConstraintState>, g: int) -> Seq<ConstraintState> {
    let pos = dialect_positions(s, first_dialects(s, s.len() as int)[g], s.len() as int);
    pos.map_values(|p: int| s[p])
}

/// The UUID mappings of the `g`-th dialect group.
pub open spec fn group_mappings(s: Seq<ConstraintState>, maps: Seq<(u128, Vec<u128>)>, g: int) -> Seq<(u128, Vec<u128>)> {
    let pos = dialect_positions(s, first_dialects(s, s.len() as int)[g], s.len() as int);
    pos.map_values(|p: int| maps[p])
}

/// The task values known when the `g`-th dialect group is built: those
/// given, with the tasks of the groups before it recorded (see
/// `registered`).
pub open spec fn identifiers_before(
    ids: Map<u128, ASTView>,
    s: Seq<ConstraintState>,
    maps: Seq<(u128, Vec<u128>)>,
    tasks_dict: Option<ASTView>,
    g: int,
) -> Map<u128, ASTView>
    decreases g,
{
    if g <= 0 {
        ids
    } else {
        registered(
            identifiers_before(ids, s, maps, tasks_dict, g - 1),
            task_identifiers(group_members(s, g - 1), tasks_dict),
            mappings_view(group_mappings(s, maps, g - 1)),
        )
    }
}

/// The tasks of one code block: the standalone tasks, the value of each task
/// by the UUID of its constraint, the parameters of each task by its name,
/// and the dictionary that holds the tasks.
pub struct CodeBlockTasks {
    pub tasks: Vec<StandaloneTask>,
    pub task_identifiers: HashMap<u128, AST>,
    pub params: Vec<(String, Option<ParameterTuple>)>,
    pub tasks_dict: Option<AST>,
}

/// `c` holds the tasks of the states `members` (see
/// `create_standalone_tasks`), built with the task values `ids`.
pub open spec fn tasks_of(c: CodeBlockTasks, members: Seq<ConstraintState>, tasks_dict: Option<ASTView>, ids: Map<u128, ASTView>) -> bool {
    &&& c.tasks@.len() == members.len()
    &&& forall|k: int| 0 <= k < members.len() ==> task_of(#[trigger] c.tasks@[k], members[k], tasks_dict, ids)
    &&& idents_view(c.task_identifiers@) == task_identifiers(members, tasks_dict)
    &&& c.params@.len() == members.len()
    &&& forall|k: int| 0 <= k < members.len() ==> (#[trigger] c.params@[k]).0@ == members[k].task_name->0@
        && same_params(c.params@[k].1, members[k].params)
    &&& opt_ast_view(c.tasks_dict) == tasks_dict
}

pub proof fn lemma_group_members(s: Seq<ConstraintState>, g: int)
    requires
        0 <= g < first_dialects(s, s.len() as int).len(),
    ensures
        names_distinct(s) ==> names_distinct(group_members(s, g)),
        forall|k: int| 0 <= k < group_members(s, g).len() ==> exists|p: int| 0 <= p < s.len()
            && #[trigger] group_members(s, g)[k] == s[p],
{
    let d = first_dialects(s, s.len() as int)[g];
    let pos = dialect_positions(s, d, s.len() as int);
    lemma_dialect_positions(s, d, s.len() as int);
    let gm = group_members(s, g);
    assert forall|k: int| 0 <= k < gm.len() implies exists|p: int| 0 <= p < s.len() && #[trigger] gm[k] == s[p] by {
        assert(gm[k] == s[pos[k]]);
    }
    if names_distinct(s) {
        assert forall|i: int, j: int| 0 <= i < gm.len() && 0 <= j < gm.len() && i != j
            implies (#[trigger] gm[i]).task_name->0@ != (#[trigger] gm[j]).task_name->0@ by {
            if i < j {
                assert(pos[i] < pos[j]);
            } else {
                assert(pos[j] < pos[i]);
            }
        }
    }
}

pub proof fn lemma_task_identifiers_keys(s: Seq<ConstraintState>, tasks_dict: Option<ASTView>, k: u128)
    requires
        task_identifiers(s, tasks_dict).contains_key(k),
    ensures
        exists|p: int| 0 <= p < s.len() && #[trigger] s[p].constraint_uuid == k,
    decreases s.len(),
{
    if s.len() > 0 && s.last().constraint_uuid != k {
        lemma_task_identifiers_keys(s.drop_last(), tasks_dict, k);
        let p = choose|p: int| 0 <= p < s.drop_last().len() && #[trigger] s.drop_last()[p].constraint_uuid == k;
        assert(s[p] == s.drop_last()[p]);
    }
}

pub proof fn lemma_identifiers_before_keeps(
    ids: Map<u128, ASTView>,
    s: Seq<ConstraintState>,
    maps: Seq<(u128, Vec<u128>)>,
    tasks_dict: Option<ASTView>,
    g: int,
    k: u128,
)
    requires
        ids.contains_key(k),
    ensures
        identifiers_before(ids, s, maps, tasks_dict, g).contains_key(k),
    decreases g,
{
    if g > 0 {
        lemma_identifiers_before_keeps(ids, s, maps, tasks_dict, g - 1, k);
        lemma_registered_keeps(
            identifiers_before(ids, s, maps, tasks_dict, g - 1),
            task_identifiers(group_members(s, g - 1), tasks_dict),
            mappings_view(group_mappings(s, maps, g - 1)),
            k,
        );
    }
}

fn clone_opt_ast(t: &Option<AST>) -> (r: Option<AST>)
    ensures
        opt_ast_view(r) == opt_ast_view(*t),
{
    match t {
        Some(x) => Some(clone_ast(x)),
        None => None,
    }
}

/// The code blocks of a processed block: its tasks split by dialect (see
/// `split_by_dialect`), one code block for each dialect, in order of first
/// appearance. Each block's tasks are built (see `create_standalone_tasks`)
/// with the task values known by then, and its task values are recorded
/// before the next block is built (see `register_identifiers` and
/// `identifiers_before`). The task names must be set and distinct, each
/// task's UUID mapping must be its own, and no two tasks may share a
/// constraint UUID; every dependency must have a task value.
pub fn build_code_blocks(block: ProcessedBlock, identifiers: &mut HashMap<u128, AST>) -> (r: Vec<CodeBlockTasks>)
    requires
        names_distinct(block.members@),
        block.uuid_mappings@.len() == block.members@.len(),
        forall|p: int| 0 <= p < block.members@.len()
            ==> (#[trigger] block.uuid_mappings@[p]).0 == block.members@[p].constraint_uuid,
        forall|i: int, j: int| 0 <= i < block.members@.len() && 0 <= j < block.members@.len() && i != j
            ==> (#[trigger] block.members@[i]).constraint_uuid != (#[trigger] block.members@[j]).constraint_uuid,
        forall|i: int| 0 <= i < block.members@.len()
            ==> dependencies_known(#[trigger] block.members@[i], idents_view(old(identifiers)@)),
    ensures
        r@.len() == first_dialects(block.members@, block.members@.len() as int).len(),
        forall|g: int| 0 <= g < r@.len() ==> tasks_of(
            #[trigger] r@[g],
            group_members(block.members@, g),
            opt_ast_view(block.tasks_dict),
            identifiers_before(idents_view(old(identifiers)@), block.members@, block.uuid_mappings@, opt_ast_view(block.tasks_dict), g),
        ),
        idents_view(final(identifiers)@) == identifiers_before(
            idents_view(old(identifiers)@),
            block.members@,
            block.uuid_mappings@,
            opt_ast_view(block.tasks_dict),
            r@.len() as int,
        ),
{
    let ghost m0 = block.members@;
    let ghost u0 = block.uuid_mappings@;
    let ghost td = opt_ast_view(block.tasks_dict);
    let ghost ids0 = idents_view(identifiers@);
    let ghost n = m0.len() as int;
    let ghost fd = first_dialects(m0, n);
    let ProcessedBlock { members, uuid_mappings, tasks_dict } = block;
    let mut groups = split_by_dialect(members, uuid_mappings);
    let ghost gs = groups@;
    let mut out: Vec<CodeBlockTasks> = Vec::new();
    let ghost mut g: int = 0;
    while groups.len() > 0
        invariant
            0 <= g <= gs.len(),
            groups@ == gs.skip(g),
            gs.len() == fd.len(),
            n == m0.len(),
            fd == first_dialects(m0, n),
            td == opt_ast_view(tasks_dict),
            forall|h: int| 0 <= h < gs.len() ==> group_of(#[trigger] gs[h], m0, u0, fd[h], n),
            names_distinct(m0),
            u0.len() == m0.len(),
            forall|p: int| 0 <= p < m0.len() ==> (#[trigger] u0[p]).0 == m0[p].constraint_uuid,
            forall|i: int, j: int| 0 <= i < m0.len() && 0 <= j < m0.len() && i != j
                ==> (#[trigger] m0[i]).constraint_uuid != (#[trigger] m0[j]).constraint_uuid,
            forall|i: int| 0 <= i < m0.len() ==> dependencies_known(#[trigger] m0[i], ids0),
            out@.len() == g,
            forall|h: int| 0 <= h < g ==> tasks_of(#[trigger] out@[h], group_members(m0, h), td, identifiers_before(ids0, m0, u0, td, h)),
            idents_view(identifiers@) == identifiers_before(ids0, m0, u0, td, g),
        decreases groups@.len(),
    {
        let (gm, gmaps) = groups.remove(0);
        let ghost cur = idents_view(identifiers@);
        let ghost pos = dialect_positions(m0, fd[g], n);
        proof {
            assert((gm, gmaps) == gs[g]);
            assert(group_of(gs[g], m0, u0, fd[g], n));
            assert(gm@ =~= group_members(m0, g));
            assert(gmaps@ =~= group_mappings(m0, u0, g));
            lemma_group_members(m0, g);
            lemma_dialect_positions(m0, fd[g], n);
            assert forall|k: int| 0 <= k < gm@.len() implies dependencies_known(#[trigger] gm@[k], cur) by {
                assert(gm@[k] == m0[pos[k]]);
                assert(dependencies_known(m0[pos[k]], ids0));
                assert forall|q: int| 0 <= q < gm@[k].satisfied_dependencies@.len()
                    implies cur.contains_key(#[trigger] gm@[k].satisfied_dependencies@[q].constraint_uuid) by {
                    lemma_identifiers_before_keeps(ids0, m0, u0, td, g, gm@[k].satisfied_dependencies@[q].constraint_uuid);
                }
            }
        }
        let dict = clone_opt_ast(&tasks_dict);
        let (tasks, tids, params) = create_standalone_tasks(gm, clone_opt_ast(&tasks_dict), identifiers);
        proof {
            assert forall|i: int, j: int| 0 <= i < gmaps@.len() && 0 <= j < gmaps@.len() && i != j
                implies gmaps@[i].0 != gmaps@[j].0 by {
                assert(gmaps@[i] == u0[pos[i]]);
                assert(gmaps@[j] == u0[pos[j]]);
                if i < j {
                    assert(pos[i] < pos[j]);
                } else {
                    assert(pos[j] < pos[i]);
                }
            }
            assert forall|k: u128| #[trigger] tids@.contains_key(k)
                implies exists|j: int| 0 <= j < gmaps@.len() && #[trigger] gmaps@[j].0 == k by {
                assert(idents_view(tids@).contains_key(k));
                lemma_task_identifiers_keys(group_members(m0, g), td, k);
                let p = choose|p: int| 0 <= p < group_members(m0, g).len() && #[trigger] group_members(m0, g)[p].constraint_uuid == k;
                assert(gmaps@[p] == u0[pos[p]]);
                assert(gmaps@[p].0 == k);
            }
        }
        register_identifiers(identifiers, &tids, &gmaps);
        let c = CodeBlockTasks { tasks, task_identifiers: tids, params, tasks_dict: dict };
        proof {
            assert(tasks_of(c, group_members(m0, g), td, identifiers_before(ids0, m0, u0, td, g)));
        }
        out.push(c);
        proof {
            g = g + 1;
            assert(groups@ =~= gs.skip(g));
        }
    }
    out
}

} // verus!

verus! {

/// What `build_code_blocks` needs of a processed block, given the task
/// values known before it: set and distinct task names, each task's UUID
/// mapping its own, no constraint UUID twice, and every dependency with a
/// task value.
pub open spec fn block_buildable(b: ProcessedBlock, ids: Map<u128, ASTView>) -> bool {
    &&& names_distinct(b.members@)
    &&& b.uuid_mappings@.len() == b.members@.len()
    &&& forall|p: int| 0 <= p < b.members@.len() ==> (#[trigger] b.uuid_mappings@[p]).0 == b.members@[p].constraint_uuid
    &&& forall|i: int, j: int| 0 <= i < b.members@.len() && 0 <= j < b.members@.len() && i != j
        ==> (#[trigger] b.members@[i]).constraint_uuid != (#[trigger] b.members@[j]).constraint_uuid
    &&& forall|i: int| 0 <= i < b.members@.len() ==> dependencies_known(#[trigger] b.members@[i], ids)
}

/// The task values known once the code blocks of a processed block are
/// built (see `build_code_blocks`).
pub open spec fn identifiers_after(ids: Map<u128, ASTView>, b: ProcessedBlock) -> Map<u128, ASTView> {
    identifiers_before(
        ids,
        b.members@,
        b.uuid_mappings@,
        opt_ast_view(b.tasks_dict),
        first_dialects(b.members@, b.members@.len() as int).len() as int,
    )
}

/// The task values known before the `n`-th processed block is built.
pub open spec fn identifiers_at(ids: Map<u128, ASTView>, bs: Seq<(String, ProcessedBlock)>, n: int) -> Map<u128, ASTView>
    decreases n,
{
    if n <= 0 {
        ids
    } else {
        identifiers_after(identifiers_at(ids, bs, n - 1), bs[n - 1].1)
    }
}

/// `r` holds the code blocks of processed block `b` built with the task
/// values `ids` (see `build_code_blocks`).
pub open spec fn code_blocks_of(r: Seq<CodeBlockTasks>, b: ProcessedBlock, ids: Map<u128, ASTView>) -> bool {
    &&& r.len() == first_dialects(b.members@, b.members@.len() as int).len()
    &&& forall|g: int| 0 <= g < r.len() ==> tasks_of(
        #[trigger] r[g],
        group_members(b.members@, g),
        opt_ast_view(b.tasks_dict),
        identifiers_before(ids, b.members@, b.uuid_mappings@, opt_ast_view(b.tasks_dict), g),
    )
}

/// Builds the code blocks of the processed blocks in order (see
/// `build_code_blocks`), each under its name: the task values of each
/// block are known to the blocks after it. The inputs on which building a
/// block is a fatal error (see `block_buildable`) are excluded.
pub fn build_all_code_blocks(
    blocks: Vec<(String, ProcessedBlock)>,
    identifiers: &mut HashMap<u128, AST>,
) -> (r: Vec<(String, Vec<CodeBlockTasks>)>)
    requires
        forall|q: int| 0 <= q < blocks@.len() ==> block_buildable(
            (#[trigger] blocks@[q]).1,
            identifiers_at(idents_view(old(identifiers)@), blocks@, q),
        ),
    ensures
        r@.len() == blocks@.len(),
        forall|q: int| 0 <= q < r@.len() ==> (#[trigger] r@[q]).0@ == blocks@[q].0@ && code_blocks_of(
            r@[q].1@,
            blocks@[q].1,
            identifiers_at(idents_view(old(identifiers)@), blocks@, q),
        ),
        idents_view(final(identifiers)@) == identifiers_at(idents_view(old(identifiers)@), blocks@, blocks@.len() as int),
{
    let ghost b0 = blocks@;
    let ghost ids0 = idents_view(identifiers@);
    let mut out: Vec<(String, Vec<CodeBlockTasks>)> = Vec::new();
    let mut src = blocks;
    let ghost mut q: int = 0;
    while src.len() > 0
        invariant
            0 <= q <= b0.len(),
            src@ == b0.skip(q),
            forall|k: int| 0 <= k < b0.len() ==> block_buildable((#[trigger] b0[k]).1, identifiers_at(ids0, b0, k)),
            out@.len() == q,
            forall|k: int| 0 <= k < q ==> (#[trigger] out@[k]).0@ == b0[k].0@
                && code_blocks_of(out@[k].1@, b0[k].1, identifiers_at(ids0, b0, k)),
            idents_view(identifiers@) == identifiers_at(ids0, b0, q),
        decreases src@.len(),
    {
        let (name, block) = src.remove(0);
        proof {
            assert((name, block) == b0[q]);
            assert(block_buildable(b0[q].1, identifiers_at(ids0, b0, q)));
        }
        let cbs = build_code_blocks(block, identifiers);
        out.push((name, cbs));
        proof {
            q = q + 1;
            assert(src@ =~= b0.skip(q));
        }
    }
    out
}

} // verus!

verus! {

/// The whole run over the blocks of unsatisfied constraints: satisfies and
/// processes them (see `satisfy_and_process`), then builds the code blocks
/// of each processed block in order (see `build_all_code_blocks`), the task
/// values of each block known to the blocks after it. The fatal errors are
/// those of both steps; the requirements exclude them, the second for every
/// result that the first may give.
pub fn run_constraint_blocks(
    blocks: Vec<UnsatisfiedBlock>,
    preferences: &Vec<Dialect>,
    programs: &Vec<(String, Vec<Program>)>,
    table: &Vec<(TaskId, ComputedArgs)>,
    identifiers: &mut HashMap<u128, AST>,
) -> (r: Vec<(String, Vec<CodeBlockTasks>)>)
    requires
        names_unique(blocks_view(blocks@)),
        schedule(blocks_view(blocks@), blocks@.len()).1.len() == 0,
        state_keys_unique(blocks@),
        states_fresh(blocks@, preferences@, programs@, table@),
        contexts_agree(blocks@, table@),
        waits_on_earlier(blocks@, schedule(blocks_view(blocks@), blocks@.len()).0),
        forall|sat: Seq<SatisfiedBlock>, ps: Seq<(String, ProcessedBlock)>, q: int|
            #![trigger processed_blocks_as(ps, sat), ps[q]]
            satisfied_as(sat, blocks@, table@) && processed_blocks_as(ps, sat) && 0 <= q < ps.len()
            ==> block_buildable(ps[q].1, identifiers_at(idents_view(old(identifiers)@), ps, q)),
    ensures
        exists|sat: Seq<SatisfiedBlock>, ps: Seq<(String, ProcessedBlock)>| {
            &&& satisfied_as(sat, blocks@, table@)
            &&& processed_blocks_as(ps, sat)
            &&& r@.len() == ps.len()
            &&& forall|q: int| 0 <= q < r@.len() ==> (#[trigger] r@[q]).0@ == ps[q].0@ && code_blocks_of(
                r@[q].1@,
                ps[q].1,
                identifiers_at(idents_view(old(identifiers)@), ps, q),
            )
            &&& idents_view(final(identifiers)@) == identifiers_at(idents_view(old(identifiers)@), ps, ps.len() as int)
        },
{
    let ghost ids0 = idents_view(identifiers@);
    let processed = satisfy_and_process(blocks, preferences, programs, table);
    let ghost ps = processed@;
    proof {
        let sat = choose|sat: Seq<SatisfiedBlock>| satisfied_as(sat, blocks@, table@) && processed_blocks_as(ps, sat);
        assert forall|q: int| 0 <= q < ps.len() implies block_buildable((#[trigger] ps[q]).1, identifiers_at(ids0, ps, q)) by {
            assert(satisfied_as(sat, blocks@, table@) && processed_blocks_as(ps, sat) && 0 <= q < ps.len());
            assert(ps[q] == ps[q]);
        }
    }
    let r = build_all_code_blocks(processed, identifiers);
    proof {
        let sat = choose|sat: Seq<SatisfiedBlock>| satisfied_as(sat, blocks@, table@) && processed_blocks_as(ps, sat);
        assert(satisfied_as(sat, blocks@, table@) && processed_blocks_as(ps, sat));
    }
    r
}

/// A state's position is among those of its dialect, and its dialect among
/// the dialects of the states.
proof fn lemma_position_listed(s: Seq<ConstraintState>, p: int, n: int)
    requires
        0 <= p < n <= s.len(),
    ensures
        dialect_positions(s, s[p].dialect_view(), n).contains(p),
        first_dialects(s, n).contains(s[p].dialect_view()),
    decreases n,
{
    let d = s[p].dialect_view();
    let r = dialect_positions(s, d, n - 1);
    let f = first_dialects(s, n - 1);
    if p < n - 1 {
        lemma_position_listed(s, p, n - 1);
        let k = choose|k: int| 0 <= k < r.len() && r[k] == p;
        if s[n - 1].dialect_view() == d {
            assert(r.push(n - 1)[k] == p);
        }
        let kk = choose|kk: int| 0 <= kk < f.len() && f[kk] == d;
        if !f.contains(s[n - 1].dialect_view()) {
            assert(f.push(s[n - 1].dialect_view())[kk] == d);
        }
    } else {
        assert(r.push(n - 1)[r.len() as int] == p);
        if !f.contains(d) {
            assert(f.push(d)[f.len() as int] == d);
        }
    }
}

/// Where no two states share a constraint UUID, each state's UUID holds its
/// own task value.
proof fn lemma_task_identifiers_at(t: Seq<ConstraintState>, td: Option<ASTView>, k: int)
    requires
        0 <= k < t.len(),
        forall|i: int, j: int| 0 <= i < t.len() && 0 <= j < t.len() && i != j
            ==> (#[trigger] t[i]).constraint_uuid != (#[trigger] t[j]).constraint_uuid,
    ensures
        task_identifiers(t, td).contains_key(t[k].constraint_uuid),
        task_identifiers(t, td)[t[k].constraint_uuid] == task_val_view(td, t[k].task_name->0@),
    decreases t.len(),
{
    if k < t.len() - 1 {
        let d = t.drop_last();
        assert forall|i: int, j: int| 0 <= i < d.len() && 0 <= j < d.len() && i != j
            implies (#[trigger] d[i]).constraint_uuid != (#[trigger] d[j]).constraint_uuid by {
            assert(d[i] == t[i] && d[j] == t[j]);
        }
        lemma_task_identifiers_at(d, td, k);
        assert(d[k] == t[k]);
        assert(t[t.len() - 1].constraint_uuid != t[k].constraint_uuid);
    }
}

/// The UUID `u` is claimed by at most one task of the block: the task's own
/// or one it stands for.
pub open spec fn claimed_once(b: ProcessedBlock, u: u128) -> bool {
    let mv = mappings_view(b.uuid_mappings@);
    forall|i: int, j: int| 0 <= i < mv.len() && 0 <= j < mv.len() && i != j
        ==> !(stands_for(#[trigger] mv[i], u) && stands_for(#[trigger] mv[j], u))
}

proof fn lemma_resolves_from(
    ids: Map<u128, ASTView>,
    b: ProcessedBlock,
    p: int,
    u: u128,
    gp: int,
    g: int,
)
    requires
        block_buildable(b, ids),
        0 <= p < b.members@.len(),
        stands_for(mappings_view(b.uuid_mappings@)[p], u),
        claimed_once(b, u),
        first_dialects(b.members@, b.members@.len() as int).no_duplicates(),
        0 <= gp < first_dialects(b.members@, b.members@.len() as int).len(),
        first_dialects(b.members@, b.members@.len() as int)[gp] == b.members@[p].dialect_view(),
        dialect_positions(b.members@, b.members@[p].dialect_view(), b.members@.len() as int).contains(p),
        gp < g <= first_dialects(b.members@, b.members@.len() as int).len(),
    ensures
        identifiers_before(ids, b.members@, b.uuid_mappings@, opt_ast_view(b.tasks_dict), g).contains_key(u),
        identifiers_before(ids, b.members@, b.uuid_mappings@, opt_ast_view(b.tasks_dict), g)[u]
            == task_val_view(opt_ast_view(b.tasks_dict), b.members@[p].task_name->0@),
    decreases g,
{
    let s = b.members@;
    let maps = b.uuid_mappings@;
    let td = opt_ast_view(b.tasks_dict);
    let n = s.len() as int;
    let fd = first_dialects(s, n);
    let prev = identifiers_before(ids, s, maps, td, g - 1);
    let bi = task_identifiers(group_members(s, g - 1), td);
    let mv = mappings_view(group_mappings(s, maps, g - 1));
    let all = mappings_view(maps);
    let pos = dialect_positions(s, fd[g - 1], n);
    lemma_dialect_positions(s, fd[g - 1], n);
    assert forall|i: int| 0 <= i < mv.len() implies #[trigger] mv[i] == all[pos[i]] by {}
    assert forall|i: int, j: int| 0 <= i < mv.len() && 0 <= j < mv.len() && i != j
        implies !(stands_for(#[trigger] mv[i], u) && stands_for(#[trigger] mv[j], u)) by {
        assert(mv[i] == all[pos[i]] && mv[j] == all[pos[j]]);
        if i < j {
            assert(pos[i] < pos[j]);
        } else {
            assert(pos[j] < pos[i]);
        }
    }
    lemma_registered_resolves(prev, bi, mv, u);
    if g - 1 == gp {
        let k = choose|k: int| 0 <= k < pos.len() && pos[k] == p;
        let gm = group_members(s, g - 1);
        assert(gm[k] == s[p]);
        assert forall|i: int, j: int| 0 <= i < gm.len() && 0 <= j < gm.len() && i != j
            implies (#[trigger] gm[i]).constraint_uuid != (#[trigger] gm[j]).constraint_uuid by {
            assert(gm[i] == s[pos[i]] && gm[j] == s[pos[j]]);
            if i < j {
                assert(pos[i] < pos[j]);
            } else {
                assert(pos[j] < pos[i]);
            }
        }
        lemma_task_identifiers_at(gm, td, k);
        assert(mv[k] == all[p]);
        assert(maps[p].0 == s[p].constraint_uuid);
    } else {
        lemma_resolves_from(ids, b, p, u, gp, g - 1);
        assert forall|i: int| 0 <= i < mv.len() implies !(bi.contains_key((#[trigger] mv[i]).0) && stands_for(mv[i], u)) by {
            assert(mv[i] == all[pos[i]]);
            assert(s[pos[i]].dialect_view() == fd[g - 1]);
            assert(fd[g - 1] != fd[gp]);
            assert(pos[i] != p);
        }
    }
}

/// Once the code blocks of a processed block are built, every UUID that one
/// task alone stands for (see `claimed_once`) holds that task's value.
pub proof fn lemma_identifiers_after_resolves(ids: Map<u128, ASTView>, b: ProcessedBlock, p: int, u: u128)
    requires
        block_buildable(b, ids),
        0 <= p < b.members@.len(),
        stands_for(mappings_view(b.uuid_mappings@)[p], u),
        claimed_once(b, u),
    ensures
        identifiers_after(ids, b).contains_key(u),
        identifiers_after(ids, b)[u] == task_val_view(opt_ast_view(b.tasks_dict), b.members@[p].task_name->0@),
{
    let s = b.members@;
    let n = s.len() as int;
    let d = s[p].dialect_view();
    lemma_position_listed(s, p, n);
    lemma_first_dialects(s, n, d);
    let fd = first_dialects(s, n);
    let gp = choose|gp: int| 0 <= gp < fd.len() && fd[gp] == d;
    lemma_resolves_from(ids, b, p, u, gp, fd.len() as int);
}

/// In `ids`, the UUID `u` holds the value of a task of the block that stands
/// for it.
pub open spec fn resolved_to_task(ids: Map<u128, ASTView>, b: ProcessedBlock, u: u128) -> bool {
    exists|p: int| 0 <= p < b.members@.len() && stands_for(#[trigger] mappings_view(b.uuid_mappings@)[p], u)
        && ids.contains_key(u) && ids[u] == task_val_view(opt_ast_view(b.tasks_dict), b.members@[p].task_name->0@)
}

/// The states of `block`, once processed (see `process_constraint_state`),
/// and the block that merging them gives (see `merge_constraint_block`).
pub open spec fn block_processed(
    sat: Seq<ConstraintState>,
    pb: ProcessedBlock,
    block: Seq<ConstraintState>,
    constraint_name: Seq<char>,
    table: Seq<(TaskId, ComputedArgs)>,
) -> bool {
    &&& sat.len() == block.len()
    &&& forall|i: int| 0 <= i < sat.len() ==> processed(#[trigger] sat[i], block[i], table)
    &&& processed_as(pb, sat, constraint_name)
}

/// Processes one block of constraints named `constraint_name`: satisfies
/// its states in order, each with what the program chosen for it computed,
/// recording their calls in `calls` and telling the states of the remaining
/// blocks (see `satisfy_block_states`);
/// merges the satisfied states into tasks and gives the block its tasks
/// dictionary (see `merge_constraint_block`); and builds its code blocks,
/// recording the value of each task for every constraint UUID it stands for
/// (see `build_code_blocks`). Returns the code blocks and the tasks
/// dictionary. The fatal errors of each step are excluded: the states must
/// be ready against some initial blocks whose contexts agree, and every
/// result of the first two steps must be buildable.
pub fn process_constraint_block(
    block: Vec<ConstraintState>,
    calls: &mut Vec<((String, String, String), Vec<(String, ParameterTuple)>)>,
    remaining: &mut Vec<UnsatisfiedBlock>,
    constraint_name: &String,
    preferences: &Vec<Dialect>,
    programs: &Vec<Program>,
    table: &Vec<(TaskId, ComputedArgs)>,
    identifiers: &mut HashMap<u128, AST>,
) -> (r: (Vec<CodeBlockTasks>, Option<AST>))
    requires
        exists|bs0: Seq<UnsatisfiedBlock>| {
            &&& forall|i: int| 0 <= i < block@.len() ==> ready(#[trigger] block@[i], preferences@, programs@, table@, bs0)
            &&& contexts_agree(bs0, table@)
            &&& blocks_ok(old(remaining)@, table@, bs0)
        },
        entry_ids_unique(entries_of(block@)),
        forall|sat: Seq<ConstraintState>, pb: ProcessedBlock|
            #[trigger] block_processed(sat, pb, block@, constraint_name@, table@)
            ==> block_buildable(pb, idents_view(old(identifiers)@)),
    ensures
        exists|sat: Seq<ConstraintState>, pb: ProcessedBlock| {
            &&& block_processed(sat, pb, block@, constraint_name@, table@)
            &&& calls_view(final(calls)@) == calls_after(calls_view(old(calls)@), sat)
            &&& code_blocks_of(r.0@, pb, idents_view(old(identifiers)@))
            &&& opt_ast_view(r.1) == opt_ast_view(pb.tasks_dict)
            &&& idents_view(final(identifiers)@) == identifiers_after(idents_view(old(identifiers)@), pb)
            &&& forall|i: int| 0 <= i < block@.len() && #[trigger] claimed_once(pb, block@[i].constraint_uuid)
                ==> resolved_to_task(idents_view(final(identifiers)@), pb, block@[i].constraint_uuid)
        },
        final(remaining)@.len() == old(remaining)@.len(),
        forall|j: int| 0 <= j < final(remaining)@.len() ==> (#[trigger] final(remaining)@[j]).name == old(remaining)@[j].name
            && final(remaining)@[j].dependency_names == old(remaining)@[j].dependency_names
            && final(remaining)@[j].constraints@.len() == old(remaining)@[j].constraints@.len(),
        forall|j: int, k: int| 0 <= j < final(remaining)@.len() && 0 <= k < final(remaining)@[j].constraints@.len()
            ==> progressed(#[trigger] final(remaining)@[j].constraints@[k], old(remaining)@[j].constraints@[k], entries_of(block@)),
{
    let ghost ids0 = idents_view(identifiers@);
    let ghost bs0 = choose|bs0: Seq<UnsatisfiedBlock>| {
        &&& forall|i: int| 0 <= i < block@.len() ==> ready(#[trigger] block@[i], preferences@, programs@, table@, bs0)
        &&& contexts_agree(bs0, table@)
        &&& blocks_ok(remaining@, table@, bs0)
    };
    let ghost b0 = block@;
    let mut states = block;
    satisfy_block_states(&mut states, calls, remaining, preferences, programs, table, Ghost(bs0));
    let ghost sat = states@;
    let pb = merge_constraint_block(states, constraint_name);
    let tasks_dict = match &pb.tasks_dict {
        Some(t) => Some(clone_ast(t)),
        None => None,
    };
    proof {
        assert(block_processed(sat, pb, b0, constraint_name@, table@));
        assert(block_buildable(pb, ids0));
    }
    let ghost pbg = pb;
    let cbs = build_code_blocks(pb, identifiers);
    proof {
        assert(block_processed(sat, pbg, b0, constraint_name@, table@));
        let n = sat.len() as int;
        let reps = crate::task_blocks::representatives(sat, n);
        assert forall|i: int| 0 <= i < b0.len() && #[trigger] claimed_once(pbg, b0[i].constraint_uuid)
            implies resolved_to_task(idents_view(identifiers@), pbg, b0[i].constraint_uuid) by {
            let u = b0[i].constraint_uuid;
            assert(processed(sat[i], b0[i], table@));
            crate::task_blocks::lemma_every_constraint_kept(sat, i);
            let p = choose|p: int| 0 <= p < reps.len() && (
                #[trigger] reps[p] == i || crate::task_blocks::merged_uuids(sat, reps[p], n).contains(sat[i].constraint_uuid));
            assert(crate::task_blocks::named(pbg.members@[p], sat[reps[p]]));
            assert(pbg.uuid_mappings@[p].0 == pbg.members@[p].constraint_uuid);
            assert(mappings_view(pbg.uuid_mappings@)[p] == (pbg.uuid_mappings@[p].0, pbg.uuid_mappings@[p].1@));
            assert(stands_for(mappings_view(pbg.uuid_mappings@)[p], u));
            lemma_identifiers_after_resolves(ids0, pbg, p, u);
        }
    }
    (cbs, tasks_dict)
}

} // verus!
