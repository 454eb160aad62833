//! The state of one constraint while the driver satisfies the constraint
//! graph: its dependencies, the program chosen for it and its task name.
use vstd::prelude::*;
use crate::ancestor_record::{
    AncestorRecord, AncestorRecordView, TaskId, opt_string_view, records_view, relative_path,
};
use crate::ast::{
    AST, ASTView, Formatted, KeywordMap, SimpleIdentifier, StringLiteral, asts_view, clone_asts,
    clone_keywords, lemma_asts_view_push,
};
use crate::context::{Context, compatible};
use crate::linked::{id_set_insert, id_set_items, id_set_new, id_set_remove};
use crate::satisfaction::lemma_retain_disjoint;
use crate::task_graph::retain_ids;
use linked_hash_set::LinkedHashSet;
use std::collections::hash_map::RandomState;
use crate::dialect::{Dialect, DialectView};
use crate::strings::{
    chars_of, hex32, hex_char, pow16, snake_case, string_from_chars, string_of, to_snake_case,
    uuid_text, uuid_to_string,
};

verus! {

/// The positional and keyword arguments of a task call.
pub struct ParameterTuple {
    pub args: Vec<AST>,
    pub kwargs: KeywordMap,
}

impl ParameterTuple {
    pub fn get_args(&self) -> (r: Vec<AST>)
        ensures
            asts_view(r@) == asts_view(self.args@),
    {
        clone_asts(&self.args)
    }

    pub fn get_kwargs(&self) -> (r: KeywordMap)
        ensures
            r.view() == self.kwargs.view(),
    {
        clone_keywords(&self.kwargs)
    }

    pub fn duplicate(&self) -> (r: ParameterTuple)
        ensures
            asts_view(r.args@) == asts_view(self.args@),
            r.kwargs.view() == self.kwargs.view(),
    {
        ParameterTuple { args: self.get_args(), kwargs: self.get_kwargs() }
    }
}

/// What the driver knows of a constraint: its name, UUID, the concept it is
/// attached to (root), whether it needs a program, and the constraints it
/// depends on.
pub struct ConstraintInfo {
    pub name: String,
    pub uuid: u128,
    pub root_uuid: u128,
    pub root_type: String,
    pub requires_program: bool,
    pub dependencies: Vec<TaskId>,
}

/// What the driver knows of a concept: its UUID, type, tag, index among its
/// parent's children, and the ids of its children.
pub struct Concept {
    pub uuid: u128,
    pub object_type: String,
    pub tag: Option<String>,
    pub index_as_child: usize,
    pub children: Vec<TaskId>,
}

/// A program registered for a constraint: its dialect, by which programs
/// are chosen (see `best_program`), and its code as registered. What it
/// computes for one state comes as `ComputedArgs`.
pub struct Program {
    pub dialect: Dialect,
    pub preamble: String,
    pub call: String,
    pub params: ParameterTuple,
}

/// What a program computed for one state: the code to run (preamble, call,
/// parameters, dialect), and the state's context once the program has run
/// (the program starts from the state's context and may add to it).
pub struct ComputedArgs {
    pub preamble: String,
    pub call: String,
    pub params: ParameterTuple,
    pub dialect: Dialect,
    pub context: Context,
}

/// The dialect of the program chosen by preference (see `best_program`).
pub open spec fn chosen_dialect(preferences: Seq<Dialect>, programs: Seq<Program>) -> DialectView {
    program_dialects(programs)[best_program(dialects_view(preferences), program_dialects(programs))->0]
}

/// The state holds, by value, the code and the context of `c`.
pub open spec fn computed_into(s: ConstraintState, c: ComputedArgs) -> bool {
    &&& s.dialect_view() == Some(c.dialect@)
    &&& opt_string_view(s.preamble) == Some(c.preamble@)
    &&& opt_string_view(s.call) == Some(c.call@)
    &&& opt_args_view(s.params) == Some(asts_view(c.params.args@))
    &&& opt_kwargs_view(s.params) == Some(c.params.kwargs.view())
    &&& s.context@ == c.context@
}

/// A dependency that has been satisfied: its id and its constraint's UUID.
pub struct SatisfiedDependency {
    pub id: TaskId,
    pub constraint_uuid: u128,
}

/// The ids of a sequence of task ids, by value.
pub open spec fn ids_view(s: Seq<TaskId>) -> Seq<(u128, Seq<char>)> {
    s.map_values(|t: TaskId| t@)
}

/// Whether no id occurs twice.
pub open spec fn ids_unique(s: Seq<(u128, Seq<char>)>) -> bool {
    forall|i: int, j: int| 0 <= i < s.len() && 0 <= j < s.len() && i != j ==> s[i] != s[j]
}

/// The state of a constraint during satisfaction.
pub struct ConstraintState {
    pub dialect: Option<Dialect>,
    pub key: Option<String>,
    pub name: String,
    pub satisfied: bool,
    pub satisfied_dependencies: Vec<SatisfiedDependency>,
    pub unsatisfied_dependencies: LinkedHashSet<(u128, String), RandomState>,
    pub constraint_uuid: u128,
    pub requires_program: bool,
    pub root_uuid: u128,
    pub root_type: String,
    pub root_tag: Option<String>,
    pub ancestors: Vec<AncestorRecord>,
    pub preamble: Option<String>,
    pub call: Option<String>,
    pub params: Option<ParameterTuple>,
    pub task_name: Option<String>,
    pub context: Context,
}

/// The preference-ordered choice of a program: the first preferred dialect
/// that some program has, and the first program with that dialect.
pub open spec fn best_program(prefs: Seq<DialectView>, progs: Seq<DialectView>) -> Option<int>
    decreases prefs.len(),
{
    if prefs.len() == 0 {
        None
    } else if exists|j: int| 0 <= j < progs.len() && progs[j] == prefs[0] {
        Some(choose|j: int| first_match(progs, prefs[0], j))
    } else {
        best_program(prefs.drop_first(), progs)
    }
}

/// `j` is the first position of `d` in `progs`.
pub open spec fn first_match(progs: Seq<DialectView>, d: DialectView, j: int) -> bool {
    &&& 0 <= j < progs.len()
    &&& progs[j] == d
    &&& forall|k: int| 0 <= k < j ==> progs[k] != d
}

/// The chosen program is one of the programs.
pub proof fn lemma_best_program_in_range(prefs: Seq<DialectView>, progs: Seq<DialectView>)
    ensures
        best_program(prefs, progs) matches Some(k) ==> 0 <= k < progs.len(),
    decreases prefs.len(),
{
    if prefs.len() > 0 {
        if exists|j: int| 0 <= j < progs.len() && progs[j] == prefs[0] {
            lemma_first_match_exists(progs, prefs[0]);
        } else {
            lemma_best_program_in_range(prefs.drop_first(), progs);
        }
    }
}

/// Where `d` occurs in `progs`, it has a first position.
pub proof fn lemma_first_match_exists(progs: Seq<DialectView>, d: DialectView)
    requires
        exists|j: int| 0 <= j < progs.len() && progs[j] == d,
    ensures
        exists|j: int| first_match(progs, d, j),
    decreases progs.len(),
{
    if progs[0] == d {
        assert(first_match(progs, d, 0));
    } else {
        let w = choose|j: int| 0 <= j < progs.len() && progs[j] == d;
        let rest = progs.drop_first();
        assert(rest[w - 1] == d);
        lemma_first_match_exists(rest, d);
        let j = choose|j: int| first_match(rest, d, j);
        assert forall|k: int| 0 <= k < j + 1 implies progs[k] != d by {
            if k > 0 {
                assert(progs[k] == rest[k - 1]);
            }
        }
        assert(first_match(progs, d, j + 1));
    }
}

pub open spec fn dialects_view(s: Seq<Dialect>) -> Seq<DialectView> {
    s.map_values(|d: Dialect| d@)
}

pub open spec fn program_dialects(s: Seq<Program>) -> Seq<DialectView> {
    s.map_values(|p: Program| p.dialect@)
}

/// The name of a task: the snake-case constraint name, the task key when it
/// is not empty, and the first group of the constraint's UUID, joined by
/// double underscores.
pub open spec fn fully_qualified_task_name(name: Seq<char>, key: Seq<char>, uuid: u128) -> Seq<
    char,
> {
    let base = if key.len() == 0 {
        snake_case(name)
    } else {
        snake_case(name) + seq!['_', '_'] + key
    };
    base + seq!['_', '_'] + hex32(uuid).subrange(0, 8)
}

/// The key of a task: the tag of its root concept, or else the relative path
/// of the root's ancestors.
pub open spec fn task_key(tag: Option<Seq<char>>, ancestors: Seq<AncestorRecordView>) -> Seq<char> {
    match tag {
        Some(t) => t,
        None => relative_path(ancestors),
    }
}

/// A task's key is its root's tag when the root has one; otherwise the
/// relative path of the root's ancestors, which is `__` and the tag of the
/// last ancestor when that one is tagged.
pub proof fn lemma_task_key_from_tag(tag: Option<Seq<char>>, ancestors: Seq<AncestorRecordView>)
    ensures
        tag matches Some(t) ==> task_key(tag, ancestors) == t,
        tag is None && ancestors.len() > 0 && ancestors.last().tag is Some
            ==> task_key(tag, ancestors) == seq!['_', '_'] + ancestors.last().tag->0,
{
    if tag is None && ancestors.len() > 0 && ancestors.last().tag is Some {
        crate::ancestor_record::lemma_tagged_record_ends_path(ancestors);
    }
}

/// A task's name starts with the snake-case constraint name, then holds
/// `__` and the key when the key is not empty, and ends with `__` and the
/// first eight hexadecimal digits of the constraint's UUID.
pub proof fn lemma_task_name_parts(name: Seq<char>, key: Seq<char>, uuid: u128)
    ensures
        ({
            let q = fully_qualified_task_name(name, key, uuid);
            let sn = snake_case(name);
            let tail = seq!['_', '_'] + hex32(uuid).subrange(0, 8);
            &&& q.len() == sn.len() + (if key.len() == 0 { 0 } else { key.len() + 2 }) + 10
            &&& q.subrange(0, sn.len() as int) == sn
            &&& key.len() > 0 ==> q.subrange(sn.len() as int, (sn.len() + 2 + key.len()) as int) == seq!['_', '_'] + key
            &&& q.subrange((q.len() - 10) as int, q.len() as int) == tail
        }),
{
    let q = fully_qualified_task_name(name, key, uuid);
    let sn = snake_case(name);
    let tail = seq!['_', '_'] + hex32(uuid).subrange(0, 8);
    assert(tail.len() == 10);
    if key.len() == 0 {
        assert(q == sn + tail);
        assert(q.subrange(0, sn.len() as int) =~= sn);
        assert(q.subrange((q.len() - 10) as int, q.len() as int) =~= tail);
    } else {
        let mid = seq!['_', '_'] + key;
        assert(q == sn + mid + tail);
        assert(q.subrange(0, sn.len() as int) =~= sn);
        assert(q.subrange(sn.len() as int, (sn.len() + 2 + key.len()) as int) =~= mid);
        assert(q.subrange((q.len() - 10) as int, q.len() as int) =~= tail);
    }
}

fn clone_opt_string(o: &Option<String>) -> (r: Option<String>)
    ensures
        opt_string_view(r) == opt_string_view(*o),
{
    match o {
        Some(s) => Some(s.clone()),
        None => None,
    }
}

/// The first group of digits of a UUID's text: what precedes the first
/// hyphen.
fn uuid_first_group(v: u128) -> (r: String)
    ensures
        r@ == hex32(v).subrange(0, 8),
{
    let s = uuid_to_string(v);
    let cs = chars_of(s.as_str());
    let mut out: Vec<char> = Vec::new();
    let mut i: usize = 0;
    proof {
        assert(cs@.len() == 36);
        assert(cs@[8] == '-');
    }
    while i < cs.len() && cs[i] != '-'
        invariant
            cs@ == uuid_text(v),
            i <= 8,
            out@ == hex32(v).subrange(0, i as int),
        decreases cs@.len() - i,
    {
        proof {
            assert(cs@[i as int] == hex32(v)[i as int]);
        }
        out.push(cs[i]);
        i = i + 1;
        proof {
            assert(out@ =~= hex32(v).subrange(0, i as int));
        }
    }
    proof {
        if i < 8 {
            assert(cs@[i as int] == hex32(v)[i as int]);
            let d = ((v as nat) / pow16((31 - i) as nat)) % 16;
            assert(hex32(v)[i as int] == hex_char(d));
        }
    }
    string_from_chars(&out)
}

/// The ids of a sequence collected into a set that remembers insertion
/// order (`LinkedHashSet::from_iter`): a repeated id leaves its place and
/// goes last.
pub open spec fn collected_ids(s: Seq<(u128, Seq<char>)>) -> Seq<(u128, Seq<char>)>
    decreases s.len(),
{
    if s.len() == 0 {
        Seq::empty()
    } else {
        retain_ids(collected_ids(s.drop_last()), set![s.last()]).push(s.last())
    }
}

/// One step of collecting keeps ids unique.
pub proof fn lemma_collect_step_unique(s: Seq<(u128, Seq<char>)>, x: (u128, Seq<char>))
    requires
        ids_unique(s),
    ensures
        ids_unique(retain_ids(s, set![x]).push(x)),
{
    let k = retain_ids(s, set![x]);
    crate::task_graph::lemma_retain_ids(s, set![x]);
    let t = k.push(x);
    assert forall|a: int, b: int| 0 <= a < t.len() && 0 <= b < t.len() && a != b implies t[a] != t[b] by {
        if a == k.len() as int {
            assert(t[b] == k[b]);
            assert(k.contains(k[b]));
        } else if b == k.len() as int {
            assert(t[a] == k[a]);
            assert(k.contains(k[a]));
        } else {
            assert(t[a] == k[a] && t[b] == k[b]);
        }
    }
}

/// Collecting ids that are already unique keeps them as they are.
pub proof fn lemma_collected_unique(s: Seq<(u128, Seq<char>)>)
    requires
        ids_unique(s),
    ensures
        collected_ids(s) == s,
    decreases s.len(),
{
    if s.len() > 0 {
        let p = s.drop_last();
        assert(ids_unique(p)) by {
            assert forall|a: int, b: int| 0 <= a < p.len() && 0 <= b < p.len() && a != b implies p[a] != p[b] by {
                assert(p[a] == s[a] && p[b] == s[b]);
            }
        }
        lemma_collected_unique(p);
        assert forall|j: int| 0 <= j < p.len() implies !set![s.last()].contains(#[trigger] p[j]) by {
            assert(p[j] == s[j]);
            assert(s[s.len() - 1] == s.last());
        }
        lemma_retain_disjoint(p, set![s.last()]);
        assert(p.push(s.last()) =~= s);
    }
}

/// `r` is the fresh state of constraint `c` on its root concept `root`,
/// whose ancestors are `anc`: nothing satisfied, every dependency pending
/// (as a set collects them), no program, key or task name yet, and an
/// empty context.
pub open spec fn fresh_state(r: ConstraintState, c: ConstraintInfo, root: Concept, anc: Seq<AncestorRecordView>) -> bool {
    &&& r.wf()
    &&& r.name@ == c.name@
    &&& !r.satisfied
    &&& r.satisfied_dependencies@.len() == 0
    &&& r.pending() == collected_ids(ids_view(c.dependencies@))
    &&& r.constraint_uuid == c.uuid
    &&& r.requires_program == c.requires_program
    &&& r.root_uuid == root.uuid
    &&& r.root_type@ == root.object_type@
    &&& opt_string_view(r.root_tag) == opt_string_view(root.tag)
    &&& records_view(r.ancestors@) == anc
    &&& r.dialect is None
    &&& r.key is None
    &&& r.task_name is None
    &&& r.context@ == Map::<Seq<char>, Seq<char>>::empty()
}

/// The position of the first state of constraint `u` among `states`, from
/// position `from` on; -1 when there is none.
pub open spec fn first_of_constraint(states: Seq<ConstraintState>, u: u128, from: int) -> int
    decreases states.len() - from,
{
    if from < 0 || from >= states.len() {
        -1
    } else if states[from].constraint_uuid == u {
        from
    } else {
        first_of_constraint(states, u, from + 1)
    }
}

impl ConstraintState {
    /// The representation invariant: a program has been chosen (dialect,
    /// preamble, call and parameters all set) or none has, and no
    /// dependency is pending twice.
    pub open spec fn wf(&self) -> bool {
        &&& self.context.wf()
        &&& (self.dialect is Some) == (self.call is Some)
        &&& (self.dialect is Some) == (self.preamble is Some)
        &&& (self.dialect is Some) == (self.params is Some)
        &&& ids_unique(self.pending())
    }

    /// The ids of the pending dependencies, by value.
    pub open spec fn pending(&self) -> Seq<(u128, Seq<char>)> {
        id_set_items(self.unsatisfied_dependencies)
    }

    /// The dialect of the chosen program, by value.
    pub open spec fn dialect_view(&self) -> Option<DialectView> {
        match self.dialect {
            Some(d) => Some(d@),
            None => None,
        }
    }

    /// A fresh state for a constraint on its root concept, whose ancestors
    /// are given (see `fresh_state`). Nothing is satisfied yet; every
    /// dependency is pending.
    pub fn new(constraint: &ConstraintInfo, root: &Concept, ancestors: Vec<AncestorRecord>) -> (r:
        Self)
        ensures
            fresh_state(r, *constraint, *root, records_view(ancestors@)),
            r.ancestors == ancestors,
    {
        let mut deps = id_set_new();
        let mut i: usize = 0;
        while i < constraint.dependencies.len()
            invariant
                i <= constraint.dependencies@.len(),
                id_set_items(deps) == collected_ids(ids_view(constraint.dependencies@.take(i as int))),
                ids_unique(id_set_items(deps)),
            decreases constraint.dependencies@.len() - i,
        {
            let c = &constraint.dependencies[i];
            let ghost d0 = id_set_items(deps);
            id_set_insert(&mut deps, (c.uuid, c.object_type.clone()));
            i = i + 1;
            proof {
                let t = ids_view(constraint.dependencies@.take(i as int));
                assert(t.drop_last() =~= ids_view(constraint.dependencies@.take(i - 1)));
                assert(t.last() == c@);
                lemma_collect_step_unique(d0, c@);
            }
        }
        proof {
            assert(constraint.dependencies@.take(i as int) =~= constraint.dependencies@);
        }
        ConstraintState {
            dialect: None,
            key: None,
            name: constraint.name.clone(),
            satisfied: false,
            satisfied_dependencies: Vec::new(),
            unsatisfied_dependencies: deps,
            constraint_uuid: constraint.uuid,
            requires_program: constraint.requires_program,
            root_uuid: root.uuid,
            root_type: root.object_type.clone(),
            root_tag: clone_opt_string(&root.tag),
            ancestors,
            preamble: None,
            call: None,
            params: None,
            task_name: None,
            context: Context::new(),
        }
    }

    pub fn get_name(&self) -> (r: String)
        ensures
            r@ == self.name@,
    {
        self.name.clone()
    }

    pub fn requires_program(&self) -> (r: bool)
        ensures
            r == self.requires_program,
    {
        self.requires_program
    }

    pub fn get_constraint_uuid(&self) -> (r: u128)
        ensures
            r == self.constraint_uuid,
    {
        self.constraint_uuid
    }

    pub fn get_root_uuid(&self) -> (r: u128)
        ensures
            r == self.root_uuid,
    {
        self.root_uuid
    }

    pub fn get_root_type(&self) -> (r: String)
        ensures
            r@ == self.root_type@,
    {
        self.root_type.clone()
    }

    pub fn get_ancestors(&self) -> (r: Vec<AncestorRecord>)
        ensures
            records_view(r@) == records_view(self.ancestors@),
    {
        let mut r: Vec<AncestorRecord> = Vec::new();
        let mut i: usize = 0;
        while i < self.ancestors.len()
            invariant
                i <= self.ancestors@.len(),
                r@.len() == i,
                records_view(r@) == records_view(self.ancestors@.take(i as int)),
            decreases self.ancestors@.len() - i,
        {
            let c = self.ancestors[i].clone();
            let ghost r0 = r@;
            r.push(c);
            i = i + 1;
            proof {
                assert forall|j: int| 0 <= j < i implies records_view(r@)[j] == records_view(self.ancestors@.take(i as int))[j] by {
                    if j < i - 1 {
                        assert(records_view(r0)[j] == records_view(self.ancestors@.take(i - 1))[j]);
                    }
                }
                assert(records_view(r@) =~= records_view(self.ancestors@.take(i as int)));
            }
        }
        proof {
            assert(self.ancestors@.take(i as int) =~= self.ancestors@);
        }
        r
    }

    pub fn get_preamble(&self) -> (r: Option<String>)
        ensures
            opt_string_view(r) == opt_string_view(self.preamble),
    {
        clone_opt_string(&self.preamble)
    }

    pub fn get_call(&self) -> (r: Option<String>)
        ensures
            opt_string_view(r) == opt_string_view(self.call),
    {
        clone_opt_string(&self.call)
    }

    pub fn get_key(&self) -> (r: Option<String>)
        ensures
            opt_string_view(r) == opt_string_view(self.key),
    {
        clone_opt_string(&self.key)
    }

    pub fn get_dialect(&self) -> (r: Option<Dialect>)
        ensures
            match r {
                Some(d) => self.dialect_view() == Some(d@),
                None => self.dialect is None,
            },
    {
        match &self.dialect {
            Some(d) => Some(d.duplicate()),
            None => None,
        }
    }

    pub fn get_params(&self) -> (r: Option<ParameterTuple>)
        ensures
            match r {
                Some(p) => (self.params matches Some(q) && asts_view(p.args@) == asts_view(q.args@)
                    && p.kwargs.view() == q.kwargs.view()),
                None => self.params is None,
            },
    {
        match &self.params {
            Some(p) => Some(p.duplicate()),
            None => None,
        }
    }

    pub fn set_task_name(&mut self, name: String)
        ensures
            final(self).task_name == Some(name),
            final(self).key == old(self).key,
            final(self).name == old(self).name,
            final(self).dialect == old(self).dialect,
            final(self).preamble == old(self).preamble,
            final(self).call == old(self).call,
            final(self).params == old(self).params,
            final(self).context == old(self).context,
            final(self).unsatisfied_dependencies == old(self).unsatisfied_dependencies,
            final(self).satisfied_dependencies == old(self).satisfied_dependencies,
            final(self).satisfied == old(self).satisfied,
            final(self).constraint_uuid == old(self).constraint_uuid,
            final(self).requires_program == old(self).requires_program,
            final(self).root_uuid == old(self).root_uuid,
            final(self).root_type == old(self).root_type,
            final(self).root_tag == old(self).root_tag,
            final(self).ancestors == old(self).ancestors,
    {
        self.task_name = Some(name);
    }

    /// The task name, which must have been set.
    pub fn get_task_name(&self) -> (r: String)
        requires
            self.task_name is Some,
        ensures
            r@ == self.task_name->0@,
    {
        match &self.task_name {
            Some(n) => n.clone(),
            None => String::new(),
        }
    }

    /// The task names of the satisfied dependencies, in the order in which
    /// they were satisfied: each dependency's state is the first among
    /// `states` of its constraint (see `first_of_constraint`). A dependency
    /// without a state, or whose state has no task name yet, is a fatal
    /// error; those inputs are excluded.
    pub fn get_satisfied_dependency_keys(&self, states: &Vec<ConstraintState>) -> (r: Vec<String>)
        requires
            forall|k: int| 0 <= k < self.satisfied_dependencies@.len() ==> {
                let p = first_of_constraint(states@, (#[trigger] self.satisfied_dependencies@[k]).constraint_uuid, 0);
                0 <= p < states@.len() && states@[p].task_name is Some
            },
        ensures
            r@.len() == self.satisfied_dependencies@.len(),
            forall|k: int| 0 <= k < r@.len() ==> (#[trigger] r@[k])@ == states@[first_of_constraint(
                states@,
                self.satisfied_dependencies@[k].constraint_uuid,
                0,
            )].task_name->0@,
    {
        let mut r: Vec<String> = Vec::new();
        let mut k: usize = 0;
        while k < self.satisfied_dependencies.len()
            invariant
                k <= self.satisfied_dependencies@.len(),
                r@.len() == k,
                forall|q: int| 0 <= q < self.satisfied_dependencies@.len() ==> {
                    let p = first_of_constraint(states@, (#[trigger] self.satisfied_dependencies@[q]).constraint_uuid, 0);
                    0 <= p < states@.len() && states@[p].task_name is Some
                },
                forall|q: int| 0 <= q < k ==> (#[trigger] r@[q])@ == states@[first_of_constraint(
                    states@,
                    self.satisfied_dependencies@[q].constraint_uuid,
                    0,
                )].task_name->0@,
            decreases self.satisfied_dependencies@.len() - k,
        {
            let u = self.satisfied_dependencies[k].constraint_uuid;
            let ghost target = first_of_constraint(states@, u, 0);
            proof {
                assert(0 <= target < states@.len());
            }
            let mut i: usize = 0;
            while i < states.len() && states[i].constraint_uuid != u
                invariant
                    i <= states@.len(),
                    0 <= target < states@.len(),
                    first_of_constraint(states@, u, i as int) == target,
                decreases states@.len() - i,
            {
                i = i + 1;
            }
            proof {
                assert(i < states@.len());
                assert(i as int == target);
            }
            r.push(states[i].get_task_name());
            k = k + 1;
        }
        r
    }

    /// The UUIDs of the constraints of the satisfied dependencies, in the
    /// order in which they were satisfied.
    pub fn get_dependencies(&self) -> (r: Vec<u128>)
        ensures
            r@ == self.satisfied_dependencies@.map_values(|d: SatisfiedDependency| d.constraint_uuid),
    {
        let mut r: Vec<u128> = Vec::new();
        let mut i: usize = 0;
        while i < self.satisfied_dependencies.len()
            invariant
                i <= self.satisfied_dependencies@.len(),
                r@ == self.satisfied_dependencies@.take(i as int).map_values(
                    |d: SatisfiedDependency| d.constraint_uuid,
                ),
            decreases self.satisfied_dependencies@.len() - i,
        {
            r.push(self.satisfied_dependencies[i].constraint_uuid);
            i = i + 1;
            proof {
                assert(r@ =~= self.satisfied_dependencies@.take(i as int).map_values(
                    |d: SatisfiedDependency| d.constraint_uuid,
                ));
            }
        }
        proof {
            assert(self.satisfied_dependencies@.take(i as int) =~= self.satisfied_dependencies@);
        }
        r
    }
}

} // verus!

verus! {

/// A string constant without ancestors, by value.
pub open spec fn literal_view(s: Seq<char>, is_sql: bool) -> ASTView {
    ASTView::StringLiteral { value: s, is_sql, ancestors: None }
}

/// A bare name, by value.
pub open spec fn identifier_view(s: Seq<char>) -> ASTView {
    ASTView::SimpleIdentifier { name: s }
}

/// The function that runs a task: the program's call for Python, a shell task
/// for Bash and Presto, a constant task when no program was chosen; R is not
/// supported (`None`).
pub open spec fn task_call_view(dialect: Option<DialectView>, call: Seq<char>) -> Option<ASTView> {
    match dialect {
        Some(DialectView::Python(_)) => Some(identifier_view(call)),
        Some(DialectView::Bash) => Some(identifier_view("ShellTask"@)),
        Some(DialectView::Presto) => Some(identifier_view("ShellTask"@)),
        None => Some(identifier_view("ConstantTask"@)),
        Some(DialectView::R) => None,
    }
}

/// The positional arguments of a task: the program's for Python, none for
/// Bash and Presto, the constraint's name for a constant task; R is not
/// supported (`None`).
pub open spec fn args_view(
    dialect: Option<DialectView>,
    params_args: Option<Seq<ASTView>>,
    name: Seq<char>,
) -> Option<Seq<ASTView>> {
    match dialect {
        Some(DialectView::Python(_)) => match params_args {
            Some(a) => Some(a),
            None => Some(Seq::empty()),
        },
        Some(DialectView::Bash) => Some(Seq::empty()),
        Some(DialectView::Presto) => Some(Seq::empty()),
        None => Some(seq![literal_view(name, false)]),
        Some(DialectView::R) => None,
    }
}

/// The keyword arguments of a task: the program's for Python; for Presto and
/// Bash a single `command` that formats the call (for Presto, wrapped in
/// `presto -e '...'` and marked as SQL) with the program's keywords, or the
/// bare call text when there are no parameters; none for a constant task; R
/// is not supported (`None`).
pub open spec fn kwargs_view(
    dialect: Option<DialectView>,
    params_kwargs: Option<Seq<(Seq<char>, ASTView)>>,
    call: Seq<char>,
) -> Option<Seq<(Seq<char>, ASTView)>> {
    match dialect {
        Some(DialectView::Python(_)) => match params_kwargs {
            Some(k) => Some(k),
            None => Some(Seq::empty()),
        },
        Some(DialectView::Presto) => {
            let lit = literal_view("presto -e '"@ + call + "'"@, true);
            let command = match params_kwargs {
                Some(k) => ASTView::Formatted { fmt: Box::new(lit), keywords: k },
                None => lit,
            };
            Some(seq![("command"@, command)])
        },
        Some(DialectView::Bash) => {
            let lit = literal_view(call, false);
            let command = match params_kwargs {
                Some(k) => ASTView::Formatted { fmt: Box::new(lit), keywords: k },
                None => lit,
            };
            Some(seq![("command"@, command)])
        },
        None => Some(Seq::empty()),
        Some(DialectView::R) => None,
    }
}

pub open spec fn opt_args_view(p: Option<ParameterTuple>) -> Option<Seq<ASTView>> {
    match p {
        Some(q) => Some(asts_view(q.args@)),
        None => None,
    }
}

pub open spec fn opt_kwargs_view(p: Option<ParameterTuple>) -> Option<Seq<(Seq<char>, ASTView)>> {
    match p {
        Some(q) => Some(q.kwargs.view()),
        None => None,
    }
}

fn identifier(s: String) -> (r: AST)
    ensures
        r@ == identifier_view(s@),
{
    AST::SimpleIdentifier(SimpleIdentifier::new_wrapped(s))
}

impl ConstraintState {
    /// The function that runs the task (see `task_call_view`); an error for
    /// R, which has no task call.
    pub fn get_task_call(&self) -> (r: Result<AST, String>)
        requires
            self.wf(),
        ensures
            match r {
                Ok(t) => task_call_view(self.dialect_view(), opt_string_view(self.call).unwrap_or(Seq::empty())) == Some(t@),
                Err(e) => task_call_view(self.dialect_view(), opt_string_view(self.call).unwrap_or(Seq::empty())) is None
                    && e@ == "Dialect not supported for task call: R"@,
            },
    {
        proof {
            reveal_strlit("ShellTask");
            reveal_strlit("ConstantTask");
        }
        match &self.dialect {
            Some(Dialect::Python(_)) => match &self.call {
                Some(c) => Ok(identifier(c.clone())),
                None => Ok(identifier(String::new())),
            },
            Some(Dialect::Bash(_)) => Ok(identifier(string_of("ShellTask"))),
            Some(Dialect::Presto(_)) => Ok(identifier(string_of("ShellTask"))),
            None => Ok(identifier(string_of("ConstantTask"))),
            Some(Dialect::R(_)) => Err(string_of("Dialect not supported for task call: R")),
        }
    }

    /// The positional arguments of the task (see `args_view`); an error for
    /// R.
    pub fn get_args_vec(&self) -> (r: Result<Vec<AST>, String>)
        requires
            self.wf(),
        ensures
            match r {
                Ok(v) => args_view(self.dialect_view(), opt_args_view(self.params), self.name@) == Some(asts_view(v@)),
                Err(e) => args_view(self.dialect_view(), opt_args_view(self.params), self.name@) is None
                    && e@ == "Dialect not supported for args vec: R"@,
            },
    {
        match &self.dialect {
            Some(Dialect::Python(_)) => match &self.params {
                Some(p) => Ok(p.get_args()),
                None => {
                    let v: Vec<AST> = Vec::new();
                    proof {
                        assert(asts_view(v@) =~= Seq::<ASTView>::empty());
                    }
                    Ok(v)
                },
            },
            Some(Dialect::Bash(_)) | Some(Dialect::Presto(_)) => {
                let v: Vec<AST> = Vec::new();
                proof {
                    assert(asts_view(v@) =~= Seq::<ASTView>::empty());
                }
                Ok(v)
            },
            None => {
                let mut v: Vec<AST> = Vec::new();
                let lit = AST::StringLiteral(StringLiteral::new_wrapped(self.name.clone(), false));
                proof {
                    lemma_asts_view_push(v@, lit);
                    assert(asts_view(v@) =~= Seq::<ASTView>::empty());
                }
                v.push(lit);
                proof {
                    assert(asts_view(v@) =~= seq![literal_view(self.name@, false)]);
                }
                Ok(v)
            },
            Some(Dialect::R(_)) => Err(string_of("Dialect not supported for args vec: R")),
        }
    }

    /// The keyword arguments of the task (see `kwargs_view`); an error for R.
    pub fn get_kwargs_map(&self) -> (r: Result<KeywordMap, String>)
        requires
            self.wf(),
        ensures
            match r {
                Ok(m) => kwargs_view(self.dialect_view(), opt_kwargs_view(self.params), opt_string_view(self.call).unwrap_or(Seq::empty())) == Some(m.view()),
                Err(e) => kwargs_view(self.dialect_view(), opt_kwargs_view(self.params), opt_string_view(self.call).unwrap_or(Seq::empty())) is None
                    && e@ == "Dialect not supported for kwargs map: R"@,
            },
    {
        proof {
            reveal_strlit("presto -e '");
            reveal_strlit("'");
            reveal_strlit("command");
        }
        match &self.dialect {
            Some(Dialect::Python(_)) => match &self.params {
                Some(p) => Ok(p.get_kwargs()),
                None => {
                    let m = KeywordMap::new();
                    Ok(m)
                },
            },
            Some(Dialect::Presto(_)) => {
                let call = match &self.call {
                    Some(c) => c.clone(),
                    None => String::new(),
                };
                let mut raw = string_of("presto -e '");
                raw.append(call.as_str());
                raw.append("'");
                let ghost raw_v = raw@;
                let lit = AST::StringLiteral(StringLiteral::new_wrapped(raw, true));
                proof {
                    assert(call@ == opt_string_view(self.call).unwrap_or(Seq::empty()));
                    assert(lit@ == literal_view(raw_v, true));
                }
                let command = match &self.params {
                    Some(p) => AST::Formatted(Formatted::new_wrapped(lit, p.get_kwargs())),
                    None => lit,
                };
                proof {
                    let lv = literal_view("presto -e '"@ + call@ + "'"@, true);
                    assert(raw_v =~= "presto -e '"@ + call@ + "'"@);
                    if self.params is Some {
                        assert(command@ == ASTView::Formatted { fmt: Box::new(lv), keywords: self.params->0.kwargs.view() });
                    } else {
                        assert(command@ == lv);
                    }
                }
                let mut m = KeywordMap::new();
                m.insert(string_of("command"), command);
                proof {
                    assert(m.view() =~= seq![("command"@, command@)]);
                }
                Ok(m)
            },
            Some(Dialect::Bash(_)) => {
                let call = match &self.call {
                    Some(c) => c.clone(),
                    None => String::new(),
                };
                let ghost call_v = call@;
                let lit = AST::StringLiteral(StringLiteral::new_wrapped(call, false));
                proof {
                    assert(call_v == opt_string_view(self.call).unwrap_or(Seq::empty()));
                    assert(lit@ == literal_view(call_v, false));
                }
                let command = match &self.params {
                    Some(p) => AST::Formatted(Formatted::new_wrapped(lit, p.get_kwargs())),
                    None => lit,
                };
                let mut m = KeywordMap::new();
                m.insert(string_of("command"), command);
                proof {
                    assert(m.view() =~= seq![("command"@, command@)]);
                }
                Ok(m)
            },
            None => Ok(KeywordMap::new()),
            Some(Dialect::R(_)) => Err(string_of("Dialect not supported for kwargs map: R")),
        }
    }
}

} // verus!

verus! {

impl ConstraintState {
    /// Records that the dependency `uuid` (whose state is `dependency`) is
    /// satisfied: it joins the satisfied dependencies, its context joins
    /// this one, and it is no longer pending. A dependency that is not
    /// pending and two contexts that disagree on a key are fatal errors;
    /// those inputs are excluded.
    pub fn mark_dependency_as_satisfied(&mut self, dependency: &ConstraintState, uuid: &TaskId)
        requires
            old(self).wf(),
            dependency.context.wf(),
            compatible(old(self).context@, dependency.context@),
            old(self).pending().contains(uuid@),
        ensures
            final(self).wf(),
            final(self).satisfied_dependencies@.len() == old(self).satisfied_dependencies@.len() + 1,
            forall|i: int| 0 <= i < old(self).satisfied_dependencies@.len() ==> #[trigger] final(self).satisfied_dependencies@[i] == old(self).satisfied_dependencies@[i],
            final(self).satisfied_dependencies@.last().id@ == uuid@,
            final(self).satisfied_dependencies@.last().constraint_uuid == dependency.constraint_uuid,
            final(self).context@ == old(self).context@.union_prefer_right(dependency.context@),
            final(self).pending() == retain_ids(old(self).pending(), set![uuid@]),
            final(self).name == old(self).name,
            final(self).key == old(self).key,
            final(self).task_name == old(self).task_name,
            final(self).dialect == old(self).dialect,
            final(self).preamble == old(self).preamble,
            final(self).call == old(self).call,
            final(self).params == old(self).params,
            final(self).satisfied == old(self).satisfied,
            final(self).constraint_uuid == old(self).constraint_uuid,
            final(self).requires_program == old(self).requires_program,
            final(self).root_uuid == old(self).root_uuid,
            final(self).root_type == old(self).root_type,
            final(self).root_tag == old(self).root_tag,
            final(self).ancestors == old(self).ancestors,
    {
        self.satisfied_dependencies.push(
            SatisfiedDependency { id: uuid.clone(), constraint_uuid: dependency.constraint_uuid },
        );
        self.context.insert(&dependency.context);
        id_set_remove(&mut self.unsatisfied_dependencies, &(uuid.uuid, uuid.object_type.clone()));
        proof {
            crate::task_graph::lemma_retain_ids(old(self).pending(), set![uuid@]);
        }
    }

    /// The index of the program to use: see `best_program`.
    pub fn find_best_program(preferences: &Vec<Dialect>, programs: &Vec<Program>) -> (r: Option<
        usize,
    >)
        ensures
            match r {
                Some(i) => i < programs@.len() && best_program(dialects_view(preferences@), program_dialects(programs@)) == Some(i as int),
                None => best_program(dialects_view(preferences@), program_dialects(programs@)) is None,
            },
    {
        let ghost prefs = dialects_view(preferences@);
        let ghost progs = program_dialects(programs@);
        let mut i: usize = 0;
        proof {
            assert(prefs.skip(0) =~= prefs);
        }
        while i < preferences.len()
            invariant
                i <= preferences@.len(),
                prefs == dialects_view(preferences@),
                progs == program_dialects(programs@),
                best_program(prefs, progs) == best_program(prefs.skip(i as int), progs),
            decreases preferences@.len() - i,
        {
            let ghost rest = prefs.skip(i as int);
            let mut j: usize = 0;
            while j < programs.len()
                invariant
                    j <= programs@.len(),
                    i < preferences@.len(),
                    prefs == dialects_view(preferences@),
                    progs == program_dialects(programs@),
                    rest == prefs.skip(i as int),
                    best_program(prefs, progs) == best_program(rest, progs),
                    forall|k: int| 0 <= k < j ==> progs[k] != rest[0],
                decreases programs@.len() - j,
            {
                if programs[j].dialect.equals(&preferences[i]) {
                    proof {
                        assert(progs[j as int] == rest[0]);
                        assert(first_match(progs, rest[0], j as int));
                        let c = choose|k: int| first_match(progs, rest[0], k);
                        assert(first_match(progs, rest[0], c));
                        if c < j {
                            assert(progs[c] != rest[0]);
                        } else if c > j {
                            assert(progs[j as int] != rest[0]);
                        }
                        assert(best_program(rest, progs) == Some(c));
                    }
                    return Some(j);
                }
                j = j + 1;
            }
            proof {
                assert(rest.drop_first() =~= prefs.skip(i as int + 1));
            }
            i = i + 1;
        }
        None
    }

    /// Takes the code that the program chosen by preference (see
    /// `best_program`) computed for this state: its preamble, call,
    /// parameters and dialect (the chosen program's, see `chosen_dialect`),
    /// and the context the program left (it starts from this state's context
    /// and may add to it). That no program fits is a fatal error; that input
    /// is excluded.
    pub fn satisfy(&mut self, preferences: &Vec<Dialect>, programs: &Vec<Program>, computed: &ComputedArgs)
        requires
            old(self).wf(),
            computed.context.wf(),
            best_program(dialects_view(preferences@), program_dialects(programs@)) is Some,
            computed.dialect@ == chosen_dialect(preferences@, programs@),
        ensures
            final(self).wf(),
            computed_into(*final(self), *computed),
            final(self).dialect_view() == Some(chosen_dialect(preferences@, programs@)),
            final(self).name == old(self).name,
            final(self).key == old(self).key,
            final(self).task_name == old(self).task_name,
            final(self).unsatisfied_dependencies == old(self).unsatisfied_dependencies,
            final(self).satisfied_dependencies == old(self).satisfied_dependencies,
            final(self).satisfied == old(self).satisfied,
            final(self).constraint_uuid == old(self).constraint_uuid,
            final(self).requires_program == old(self).requires_program,
            final(self).root_uuid == old(self).root_uuid,
            final(self).root_type == old(self).root_type,
            final(self).root_tag == old(self).root_tag,
            final(self).ancestors == old(self).ancestors,
    {
        self.preamble = Some(computed.preamble.clone());
        self.call = Some(computed.call.clone());
        self.params = Some(computed.params.duplicate());
        self.dialect = Some(computed.dialect.duplicate());
        self.context = computed.context.duplicate();
    }

    /// The key under which equal tasks are merged: preamble, call,
    /// parameters and dialect. A program must have been chosen.
    pub fn get_dedup_key(&self) -> (r: (String, String, ParameterTuple, Option<Dialect>))
        requires
            self.wf(),
            self.dialect is Some,
        ensures
            opt_string_view(self.preamble) == Some(r.0@),
            opt_string_view(self.call) == Some(r.1@),
            opt_args_view(self.params) == Some(asts_view(r.2.args@)),
            opt_kwargs_view(self.params) == Some(r.2.kwargs.view()),
            r.3 matches Some(d) && self.dialect_view() == Some(d@),
    {
        let pre = match &self.preamble {
            Some(s) => s.clone(),
            None => String::new(),
        };
        let call = match &self.call {
            Some(s) => s.clone(),
            None => String::new(),
        };
        let params = match &self.params {
            Some(p) => p.duplicate(),
            None => ParameterTuple { args: Vec::new(), kwargs: KeywordMap::new() },
        };
        let d = match &self.dialect {
            Some(d) => Some(d.duplicate()),
            None => None,
        };
        (pre, call, params, d)
    }

    /// Computes and stores the task key (see `task_key`).
    pub fn compute_task_key(&mut self) -> (r: String)
        ensures
            r@ == task_key(opt_string_view(old(self).root_tag), records_view(old(self).ancestors@)),
            opt_string_view(final(self).key) == Some(r@),
            final(self).name == old(self).name,
            final(self).task_name == old(self).task_name,
            final(self).dialect == old(self).dialect,
            final(self).preamble == old(self).preamble,
            final(self).call == old(self).call,
            final(self).params == old(self).params,
            final(self).context == old(self).context,
            final(self).unsatisfied_dependencies == old(self).unsatisfied_dependencies,
            final(self).satisfied_dependencies == old(self).satisfied_dependencies,
            final(self).satisfied == old(self).satisfied,
            final(self).constraint_uuid == old(self).constraint_uuid,
            final(self).requires_program == old(self).requires_program,
            final(self).root_uuid == old(self).root_uuid,
            final(self).root_type == old(self).root_type,
            final(self).root_tag == old(self).root_tag,
            final(self).ancestors == old(self).ancestors,
    {
        let k = match &self.root_tag {
            Some(t) => t.clone(),
            None => AncestorRecord::compute_relative_path(&self.ancestors),
        };
        self.key = Some(k.clone());
        k
    }

    /// The fully qualified task name (see `fully_qualified_task_name`); the
    /// key must have been computed.
    pub fn get_fully_qualified_task_name(&self) -> (r: String)
        requires
            self.key is Some,
        ensures
            r@ == fully_qualified_task_name(self.name@, self.key->0@, self.constraint_uuid),
    {
        proof {
            reveal_strlit("__");
        }
        let key = match &self.key {
            Some(k) => k.clone(),
            None => String::new(),
        };
        let mut name = to_snake_case(self.name.as_str());
        let ghost base = if key@.len() == 0 {
            snake_case(self.name@)
        } else {
            snake_case(self.name@) + seq!['_', '_'] + key@
        };
        proof {
            assert("__"@ =~= seq!['_', '_']);
        }
        if !key.as_str().is_empty() {
            name.append("__");
            name.append(key.as_str());
        }
        assert(name@ =~= base);
        name.append("__");
        let group = uuid_first_group(self.constraint_uuid);
        name.append(group.as_str());
        assert(name@ =~= base + seq!['_', '_'] + hex32(self.constraint_uuid).subrange(0, 8));
        name
    }
}

} // verus!
