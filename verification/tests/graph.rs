use aorist::ancestor_record::{AncestorRecord, TaskId};
use aorist::ast::{KeywordMap, SimpleIdentifier, AST};
use aorist::blocks::{find_satisfiable_constraint_block, UnsatisfiedBlock};
use aorist::constraint_state::{
    ComputedArgs, Concept, ConstraintInfo, ConstraintState, ParameterTuple, Program,
};
use aorist::code_blocks::{process_constraint_block, run_constraint_blocks};
use aorist::context::Context;
use std::collections::HashMap;
use aorist::dialect::{Bash, Dialect, Python, R};
use aorist::satisfaction::{
    get_unsatisfied_constraints, group_into_blocks, process_satisfied_blocks, satisfy_and_process,
    satisfy_constraints,
};
use aorist::task_blocks::{
    compute_task_vals, dedup_tasks, get_dependencies, init_tasks_dict, merge_constraint_block, same_task_exec,
    shorten_task_names,
};
use aorist::task_graph::{contains_pending, remove_dangling_dummy_tasks, remove_superfluous_dummy_tasks};

const T: &str = "StaticDataTable";

fn id(uuid: u128) -> TaskId {
    TaskId::new(uuid, T.to_string())
}

fn st(name: &str, uuid: u128, requires_program: bool, deps: &[u128]) -> ConstraintState {
    let info = ConstraintInfo {
        name: name.to_string(),
        uuid,
        root_uuid: 100 + uuid,
        root_type: T.to_string(),
        requires_program,
        dependencies: deps.iter().map(|d| id(*d)).collect(),
    };
    let root = Concept {
        uuid: 100 + uuid,
        object_type: T.to_string(),
        tag: Some(format!("t{}", uuid)),
        index_as_child: 0,
        children: vec![],
    };
    ConstraintState::new(&info, &root, vec![AncestorRecord::new(1, "Universe".to_string(), None, 0)])
}

fn pending(s: &ConstraintState) -> Vec<u128> {
    s.unsatisfied_dependencies.iter().map(|d| d.0).collect()
}

fn uuids(v: &[ConstraintState]) -> Vec<u128> {
    v.iter().map(|s| s.constraint_uuid).collect()
}

fn computed(d: Dialect, call: &str, context: Context) -> ComputedArgs {
    ComputedArgs {
        preamble: "import x".to_string(),
        call: call.to_string(),
        params: ParameterTuple { args: vec![], kwargs: KeywordMap::new() },
        dialect: d,
        context,
    }
}

fn program(d: Dialect, call: &str) -> Program {
    Program {
        dialect: d,
        preamble: "import x".to_string(),
        call: call.to_string(),
        params: ParameterTuple { args: vec![], kwargs: KeywordMap::new() },
    }
}

fn python(reqs: &[&str]) -> Dialect {
    Dialect::Python(Python::new(reqs.iter().map(|r| r.to_string()).collect()))
}

#[test]
fn dangling_dummy_tasks_are_removed_transitively() {
    let mut g = vec![st("A", 1, false, &[]), st("B", 2, false, &[1]), st("C", 3, true, &[2])];
    remove_dangling_dummy_tasks(&mut g);
    assert_eq!(uuids(&g), vec![3]);
    assert!(pending(&g[0]).is_empty());
}

#[test]
fn tasks_with_programs_are_not_dangling() {
    let mut g = vec![st("A", 1, true, &[]), st("B", 2, false, &[1])];
    remove_dangling_dummy_tasks(&mut g);
    assert_eq!(uuids(&g), vec![1, 2]);
    assert_eq!(pending(&g[1]), vec![1]);
}

#[test]
fn superfluous_dummy_tasks_are_bypassed() {
    let mut g = vec![st("A", 1, true, &[]), st("B", 2, false, &[1]), st("C", 3, true, &[2])];
    remove_superfluous_dummy_tasks(&mut g);
    assert_eq!(uuids(&g), vec![1, 3]);
    assert_eq!(pending(&g[1]), vec![1]);
}

#[test]
fn bypassed_dependency_moves_last_once() {
    let mut g = vec![
        st("A", 1, true, &[]),
        st("B", 2, false, &[1]),
        st("D", 4, true, &[]),
        st("C", 3, true, &[2, 1, 4]),
    ];
    remove_superfluous_dummy_tasks(&mut g);
    assert_eq!(uuids(&g), vec![1, 4, 3]);
    assert_eq!(pending(&g[2]), vec![4, 1]);
}

#[test]
fn pending_dependency_lookup() {
    let s = st("A", 1, true, &[5, 6]);
    assert!(contains_pending(&s, &id(6)));
    assert!(!contains_pending(&s, &id(7)));
    assert!(!contains_pending(&s, &TaskId::new(6, "Other".to_string())));
}

fn dep_names(b: &UnsatisfiedBlock) -> Vec<String> {
    b.dependency_names.iter().cloned().collect()
}

fn block(name: &str, deps: &[&str], constraints: Vec<ConstraintState>) -> UnsatisfiedBlock {
    UnsatisfiedBlock {
        name: name.to_string(),
        dependency_names: deps.iter().map(|d| d.to_string()).collect(),
        constraints,
    }
}

#[test]
fn first_ready_block_is_released() {
    let mut bs = vec![
        block("B", &["A"], vec![st("B", 2, false, &[1])]),
        block("A", &[], vec![st("A", 1, true, &[])]),
        block("C", &["A", "B"], vec![]),
    ];
    let (states, name) = find_satisfiable_constraint_block(&mut bs).unwrap();
    assert_eq!(name, "A");
    assert_eq!(uuids(&states), vec![1]);
    assert_eq!(bs.len(), 2);
    assert_eq!(bs[0].name, "B");
    assert!(bs[0].dependency_names.is_empty());
    assert_eq!(dep_names(&bs[1]), vec!["B".to_string()]);

    let mut waiting = vec![block("X", &["Y"], vec![])];
    assert!(find_satisfiable_constraint_block(&mut waiting).is_none());
    assert_eq!(waiting.len(), 1);
}

#[test]
fn blocks_are_satisfied_in_dependency_order() {
    let blocks = vec![
        block("B", &["A"], vec![st("B", 2, false, &[1])]),
        block("A", &[], vec![st("A", 1, true, &[])]),
    ];
    let preferences = vec![Dialect::R(R::new()), python(&["pandas"])];
    let programs = vec![(
        "A".to_string(),
        vec![program(Dialect::Bash(Bash::new()), "bash_a"), program(python(&["pandas"]), "py_a")],
    )];
    let mut ctx = Context::new();
    ctx.bind("table".to_string(), "t1".to_string());
    let table = vec![(id(1), computed(python(&["pandas"]), "py_a", ctx))];
    let out = satisfy_constraints(blocks, &preferences, &programs, &table);
    assert_eq!(out.len(), 2);
    assert_eq!(out[0].name, "A");
    assert_eq!(out[1].name, "B");
    let a = &out[0].constraints[0];
    assert!(a.satisfied);
    assert_eq!(a.get_call(), Some("py_a".to_string()));
    assert!(a.get_dialect().unwrap().equals(&python(&["pandas"])));
    assert_eq!(a.get_key(), Some("t1".to_string()));
    let b = &out[1].constraints[0];
    assert!(b.satisfied);
    assert!(b.unsatisfied_dependencies.is_empty());
    assert_eq!(b.satisfied_dependencies.len(), 1);
    assert_eq!(b.satisfied_dependencies[0].id.uuid, 1);
    assert_eq!(b.satisfied_dependencies[0].constraint_uuid, 1);
    assert!(b.get_call().is_none());
    assert_eq!(a.context.get(&"table".to_string()), Some(&"t1".to_string()));
    assert_eq!(b.context.get(&"table".to_string()), Some(&"t1".to_string()));
}

#[test]
fn best_program_follows_preferences() {
    let programs = vec![program(Dialect::Bash(Bash::new()), "b"), program(python(&["x"]), "p")];
    let prefs = vec![python(&["x"]), Dialect::Bash(Bash::new())];
    assert_eq!(ConstraintState::find_best_program(&prefs, &programs), Some(1));
    let prefs = vec![Dialect::Bash(Bash::new())];
    assert_eq!(ConstraintState::find_best_program(&prefs, &programs), Some(0));
    let prefs = vec![python(&["y"]), Dialect::R(R::new())];
    assert_eq!(ConstraintState::find_best_program(&prefs, &programs), None);
}

#[test]
fn blocks_are_grouped_by_name() {
    let states = vec![st("B", 2, false, &[1]), st("A", 1, true, &[]), st("B", 3, false, &[1])];
    let required = vec![
        ("A".to_string(), vec![]),
        ("B".to_string(), vec!["A".to_string(), "A".to_string()]),
    ];
    let bs = group_into_blocks(states, &required);
    assert_eq!(bs.len(), 2);
    assert_eq!(bs[0].name, "A");
    assert_eq!(uuids(&bs[0].constraints), vec![1]);
    assert_eq!(bs[1].name, "B");
    assert_eq!(dep_names(&bs[1]), vec!["A".to_string()]);
    assert_eq!(uuids(&bs[1].constraints), vec![2, 3]);
}

#[test]
fn dependency_names_follow_last_occurrence() {
    let required = vec![(
        "C".to_string(),
        vec!["A".to_string(), "B".to_string(), "A".to_string()],
    )];
    let bs = group_into_blocks(vec![], &required);
    assert_eq!(dep_names(&bs[0]), vec!["B".to_string(), "A".to_string()]);
}

#[test]
fn unsatisfied_constraints_are_pruned_then_grouped() {
    let states = vec![st("A", 1, true, &[]), st("B", 2, false, &[1]), st("C", 3, true, &[2])];
    let required = vec![
        ("A".to_string(), vec![]),
        ("B".to_string(), vec!["A".to_string()]),
        ("C".to_string(), vec!["B".to_string()]),
    ];
    let bs = get_unsatisfied_constraints(states, &required);
    assert_eq!(bs.len(), 3);
    assert_eq!(uuids(&bs[0].constraints), vec![1]);
    assert!(bs[1].constraints.is_empty());
    assert_eq!(uuids(&bs[2].constraints), vec![3]);
    assert_eq!(pending(&bs[2].constraints[0]), vec![1]);
}

fn satisfied(name: &str, uuid: u128, d: Option<Dialect>, call: &str) -> ConstraintState {
    let mut s = st(name, uuid, d.is_some(), &[]);
    if let Some(d) = d {
        let c = computed(d.duplicate(), call, Context::new());
        s.satisfy(&vec![d.duplicate()], &vec![program(d, call)], &c);
    }
    s
}

#[test]
fn equal_tasks_are_merged() {
    let states = vec![
        satisfied("A", 1, Some(python(&["a"])), "f"),
        satisfied("A", 2, Some(python(&["a"])), "g"),
        satisfied("A", 3, Some(python(&["a"])), "f"),
        satisfied("A", 4, None, ""),
    ];
    assert!(same_task_exec(&states[0], &states[2]));
    assert!(!same_task_exec(&states[0], &states[1]));
    assert!(!same_task_exec(&states[3], &states[3]));
    let (reps, maps) = dedup_tasks(states);
    assert_eq!(uuids(&reps), vec![1, 2, 4]);
    assert_eq!(maps[0], (1, vec![3]));
    assert_eq!(maps[1], (2, vec![]));
    assert_eq!(maps[2], (4, vec![4]));
}

#[test]
fn processed_block_names_its_tasks() {
    let states = vec![
        satisfied("ComputeStats", 0x11111111000000000000000000000000, Some(python(&["a"])), "f"),
        satisfied("ComputeStats", 0x22222222000000000000000000000000, Some(python(&["a"])), "f"),
    ];
    let p = merge_constraint_block(states, &"ComputeStats".to_string());
    assert_eq!(p.members.len(), 1);
    let expected = format!("compute_stats__t{}__11111111", 0x11111111000000000000000000000000u128);
    assert_eq!(p.members[0].get_task_name(), expected);
    assert!(p.tasks_dict.is_none());
    assert_eq!(p.uuid_mappings[0].0, 0x11111111000000000000000000000000);
    assert_eq!(p.uuid_mappings[0].1, vec![0x22222222000000000000000000000000]);

    let two = vec![satisfied("X", 5, None, ""), satisfied("X", 6, None, "")];
    let q = merge_constraint_block(two, &"X".to_string());
    assert_eq!(q.members.len(), 2);
    match q.tasks_dict {
        Some(AST::SimpleIdentifier(n)) => assert_eq!(n.name, "tasks_X"),
        _ => panic!("expected a tasks dictionary"),
    }
}

#[test]
fn tasks_dict_only_for_several_tasks() {
    let one = vec![st("A", 1, true, &[])];
    assert!(init_tasks_dict(&one, &"A".to_string()).is_none());
    let none: Vec<ConstraintState> = vec![];
    assert!(matches!(init_tasks_dict(&none, &"A".to_string()), Some(AST::SimpleIdentifier(n)) if n.name == "tasks_A"));
}

#[test]
fn short_names_for_every_state() {
    let uuid: u128 = 0xabcdef01000000000000000000000000;
    let mut v = vec![st("LoadData", uuid, true, &[])];
    shorten_task_names(&mut v);
    assert_eq!(v[0].get_task_name(), format!("load_data__t{}__abcdef01", uuid));
    assert_eq!(v[0].get_key(), Some(format!("t{}", uuid)));
}

#[test]
fn python_dependencies_are_collected_sorted() {
    let states = vec![
        satisfied("A", 1, Some(python(&["pandas", "numpy"])), "f"),
        satisfied("B", 2, Some(Dialect::R(R::new())), "g"),
        satisfied("C", 3, Some(python(&["numpy", "boto3"])), "h"),
        satisfied("D", 4, None, ""),
    ];
    assert_eq!(
        get_dependencies(&states),
        vec!["boto3".to_string(), "numpy".to_string(), "pandas".to_string()]
    );
}

#[test]
fn task_vals_are_names_or_dictionary_entries() {
    let mut a = st("A", 1, false, &[]);
    a.set_task_name("task_a".to_string());
    let mut b = st("B", 2, false, &[]);
    b.set_task_name("task_b".to_string());
    let plain = compute_task_vals(vec![a], &None);
    assert!(matches!(&plain[0].0, AST::SimpleIdentifier(n) if n.name == "task_a"));
    assert_eq!(plain[0].1.constraint_uuid, 1);
    let dict = AST::SimpleIdentifier(SimpleIdentifier::new_wrapped("tasks_B".to_string()));
    let keyed = compute_task_vals(vec![b], &Some(dict));
    match &keyed[0].0 {
        AST::Subscript(s) => {
            assert!(matches!(&s.a, AST::SimpleIdentifier(n) if n.name == "tasks_B"));
            assert!(matches!(&s.b, AST::StringLiteral(l) if l.value == "task_b" && !l.is_sql));
            assert!(!s.store);
        }
        _ => panic!("expected a subscript"),
    }
}

#[test]
fn marking_a_dependency_satisfied() {
    let dep = st("A", 1, true, &[]);
    let mut s = st("B", 2, false, &[1, 3]);
    s.mark_dependency_as_satisfied(&dep, &id(1));
    assert_eq!(pending(&s), vec![3]);
    assert_eq!(s.satisfied_dependencies.len(), 1);
    assert_eq!(s.satisfied_dependencies[0].constraint_uuid, 1);
    assert_eq!(s.get_dependencies(), vec![1]);
}

#[test]
fn satisfied_blocks_are_processed_under_snake_case_names() {
    let blocks = vec![
        block("DownloadData", &[], vec![st("DownloadData", 1, true, &[]), st("DownloadData", 2, true, &[])]),
        block("Nothing", &[], vec![]),
    ];
    let preferences = vec![python(&[])];
    let programs = vec![("DownloadData".to_string(), vec![program(python(&[]), "dl")])];
    let table = vec![
        (id(1), computed(python(&[]), "dl", Context::new())),
        (id(2), computed(python(&[]), "dl", Context::new())),
    ];
    let satisfied = satisfy_constraints(blocks, &preferences, &programs, &table);
    assert_eq!(satisfied.len(), 2);
    assert_eq!(satisfied[0].calls.len(), 1);
    assert_eq!(satisfied[0].calls[0].1.iter().map(|c| c.0.clone()).collect::<Vec<_>>(), vec!["t1".to_string(), "t2".to_string()]);
    assert!(satisfied[1].calls.is_empty());
    let processed = process_satisfied_blocks(satisfied);
    assert_eq!(processed.len(), 1);
    assert_eq!(processed[0].0, "download_data");
    assert_eq!(processed[0].1.members.len(), 1);
    assert_eq!(processed[0].1.uuid_mappings[0], (1, vec![2]));
    assert!(processed[0].1.tasks_dict.is_none());
}

#[test]
fn each_state_takes_what_its_program_computed() {
    let blocks = vec![block("DownloadData", &[], vec![st("DownloadData", 1, true, &[]), st("DownloadData", 2, true, &[])])];
    let preferences = vec![python(&[])];
    let programs = vec![("DownloadData".to_string(), vec![program(python(&[]), "dl")])];
    let table = vec![
        (id(2), computed(python(&[]), "dl_two", Context::new())),
        (id(1), computed(python(&[]), "dl_one", Context::new())),
    ];
    let satisfied = satisfy_constraints(blocks, &preferences, &programs, &table);
    assert_eq!(satisfied[0].constraints[0].get_call(), Some("dl_one".to_string()));
    assert_eq!(satisfied[0].constraints[1].get_call(), Some("dl_two".to_string()));
    let calls = &satisfied[0].calls;
    assert_eq!(calls.len(), 2);
    assert_eq!(calls[0].0, ("dl_one".to_string(), "DownloadData".to_string(), T.to_string()));
    assert_eq!(calls[0].1.len(), 1);
    assert_eq!(calls[0].1[0].0, "t1");
    assert_eq!(calls[1].0 .0, "dl_two");
    let processed = process_satisfied_blocks(satisfied);
    assert_eq!(processed[0].1.members.len(), 2);
    assert!(processed[0].1.tasks_dict.is_some());
}

#[test]
fn blocks_are_satisfied_then_processed_when_not_empty() {
    let blocks = vec![
        block("Nothing", &[], vec![]),
        block("DownloadData", &["Nothing"], vec![st("DownloadData", 1, true, &[])]),
    ];
    let preferences = vec![python(&[])];
    let programs = vec![("DownloadData".to_string(), vec![program(python(&[]), "dl")])];
    let table = vec![(id(1), computed(python(&[]), "dl", Context::new()))];
    let r = satisfy_and_process(blocks, &preferences, &programs, &table);
    assert_eq!(r.len(), 1);
    assert_eq!(r[0].0, "download_data");
    assert_eq!(r[0].1.members[0].get_call(), Some("dl".to_string()));
    assert!(r[0].1.tasks_dict.is_none());
}

#[test]
fn code_blocks_refer_to_the_tasks_of_earlier_blocks() {
    let blocks = vec![
        block("B", &["A"], vec![st("B", 2, true, &[1])]),
        block("A", &[], vec![st("A", 1, true, &[])]),
    ];
    let preferences = vec![python(&[])];
    let programs = vec![
        ("A".to_string(), vec![program(python(&[]), "a")]),
        ("B".to_string(), vec![program(python(&[]), "b")]),
    ];
    let table = vec![
        (id(1), computed(python(&[]), "a", Context::new())),
        (id(2), computed(python(&[]), "b", Context::new())),
    ];
    let mut identifiers = HashMap::new();
    let r = run_constraint_blocks(blocks, &preferences, &programs, &table, &mut identifiers);
    assert_eq!(r.len(), 2);
    assert_eq!(r[0].0, "a");
    assert_eq!(r[1].0, "b");
    let a_task = &r[0].1[0].tasks[0];
    let b_task = &r[1].1[0].tasks[0];
    assert_eq!(b_task.dependencies.len(), 1);
    assert!(aorist::ast_compare::ast_eq(&b_task.dependencies[0], &a_task.task_val));
    assert_eq!(identifiers.len(), 2);
    assert!(aorist::ast_compare::ast_eq(&identifiers[&1], &a_task.task_val));
}

#[test]
fn a_block_is_satisfied_merged_and_built() {
    let states = vec![st("DownloadData", 1, true, &[]), st("DownloadData", 2, true, &[])];
    let mut remaining = vec![block("Convert", &["DownloadData"], vec![st("Convert", 3, true, &[1, 2])])];
    let preferences = vec![python(&[])];
    let programs = vec![program(python(&[]), "dl")];
    let table = vec![
        (id(1), computed(python(&[]), "dl", Context::new())),
        (id(2), computed(python(&[]), "dl", Context::new())),
    ];
    let mut identifiers = HashMap::new();
    let mut calls = vec![];
    let (cbs, tasks_dict) = process_constraint_block(
        states,
        &mut calls,
        &mut remaining,
        &"download_data".to_string(),
        &preferences,
        &programs,
        &table,
        &mut identifiers,
    );
    assert!(tasks_dict.is_none());
    assert_eq!(calls.len(), 1);
    assert_eq!(calls[0].0, ("dl".to_string(), "DownloadData".to_string(), T.to_string()));
    assert_eq!(calls[0].1.iter().map(|c| c.0.clone()).collect::<Vec<_>>(), vec!["t1".to_string(), "t2".to_string()]);
    assert_eq!(cbs.len(), 1);
    assert_eq!(cbs[0].tasks.len(), 1);
    assert_eq!(cbs[0].tasks[0].call, Some("dl".to_string()));
    let val = &cbs[0].tasks[0].task_val;
    assert_eq!(identifiers.len(), 2);
    assert!(aorist::ast_compare::ast_eq(&identifiers[&1], val));
    assert!(aorist::ast_compare::ast_eq(&identifiers[&2], val));
    assert!(pending(&remaining[0].constraints[0]).is_empty());
    assert_eq!(remaining[0].constraints[0].satisfied_dependencies.len(), 2);
}

#[test]
fn a_block_of_different_tasks_gets_a_tasks_dictionary() {
    let states = vec![st("DownloadData", 1, true, &[]), st("DownloadData", 2, true, &[])];
    let mut remaining = vec![];
    let preferences = vec![python(&[])];
    let programs = vec![program(python(&[]), "dl")];
    let table = vec![
        (id(1), computed(python(&[]), "dl_one", Context::new())),
        (id(2), computed(python(&[]), "dl_two", Context::new())),
    ];
    let mut identifiers = HashMap::new();
    let mut calls = vec![];
    let (cbs, tasks_dict) = process_constraint_block(
        states,
        &mut calls,
        &mut remaining,
        &"download_data".to_string(),
        &preferences,
        &programs,
        &table,
        &mut identifiers,
    );
    let expected = AST::SimpleIdentifier(SimpleIdentifier::new_wrapped("tasks_download_data".to_string()));
    assert!(aorist::ast_compare::ast_eq(tasks_dict.as_ref().unwrap(), &expected));
    assert_eq!(cbs.len(), 1);
    assert_eq!(cbs[0].tasks.len(), 2);
    assert_eq!(identifiers.len(), 2);
    assert!(aorist::ast_compare::ast_eq(&identifiers[&1], &cbs[0].tasks[0].task_val));
    assert!(aorist::ast_compare::ast_eq(&identifiers[&2], &cbs[0].tasks[1].task_val));
}

#[test]
fn a_program_context_takes_the_place_of_the_one_it_was_given() {
    let blocks = vec![
        block("A", &[], vec![st("A", 1, true, &[])]),
        block("P", &["A"], vec![st("P", 2, true, &[1])]),
        block("X", &["P"], vec![st("X", 3, false, &[2])]),
    ];
    let preferences = vec![python(&[])];
    let programs = vec![
        ("A".to_string(), vec![program(python(&[]), "a")]),
        ("P".to_string(), vec![program(python(&[]), "p")]),
    ];
    let mut ctx_a = Context::new();
    ctx_a.bind("table".to_string(), "t1".to_string());
    let mut ctx_p = Context::new();
    ctx_p.bind("table".to_string(), "t2".to_string());
    let table = vec![
        (id(1), computed(python(&[]), "a", ctx_a)),
        (id(2), computed(python(&[]), "p", ctx_p)),
    ];
    let out = satisfy_constraints(blocks, &preferences, &programs, &table);
    assert_eq!(out.len(), 3);
    assert_eq!(out[1].constraints[0].context.get(&"table".to_string()), Some(&"t2".to_string()));
    assert_eq!(out[2].constraints[0].context.get(&"table".to_string()), Some(&"t2".to_string()));
}

#[test]
fn unrelated_constraints_may_bind_a_key_differently() {
    let blocks = vec![
        block("A", &[], vec![st("A", 1, true, &[])]),
        block("B", &[], vec![st("B", 2, true, &[])]),
    ];
    let preferences = vec![python(&[])];
    let programs = vec![
        ("A".to_string(), vec![program(python(&[]), "a")]),
        ("B".to_string(), vec![program(python(&[]), "b")]),
    ];
    let mut ctx_a = Context::new();
    ctx_a.bind("table".to_string(), "t1".to_string());
    let mut ctx_b = Context::new();
    ctx_b.bind("table".to_string(), "t2".to_string());
    let table = vec![
        (id(1), computed(python(&[]), "a", ctx_a)),
        (id(2), computed(python(&[]), "b", ctx_b)),
    ];
    let out = satisfy_constraints(blocks, &preferences, &programs, &table);
    assert_eq!(out.len(), 2);
    assert_eq!(out[0].constraints[0].context.get(&"table".to_string()), Some(&"t1".to_string()));
    assert_eq!(out[1].constraints[0].context.get(&"table".to_string()), Some(&"t2".to_string()));
}
