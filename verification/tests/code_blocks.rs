use aorist::ancestor_record::{AncestorRecord, TaskId};
use aorist::ast::{KeywordMap, SimpleIdentifier, StringLiteral, Subscript, AST};
use aorist::ast_compare::ast_eq;
use aorist::code_blocks::{
    build_code_blocks, create_standalone_tasks, register_identifiers, split_by_dialect,
};
use aorist::constraint_state::{ComputedArgs, Concept, ConstraintInfo, ConstraintState, ParameterTuple, Program};
use aorist::context::Context;
use aorist::dialect::{Bash, Dialect, Python};
use aorist::task_blocks::ProcessedBlock;
use std::collections::HashMap;

const T: &str = "StaticDataTable";

fn st(name: &str, uuid: u128, deps: &[u128]) -> ConstraintState {
    let info = ConstraintInfo {
        name: name.to_string(),
        uuid,
        root_uuid: 100 + uuid,
        root_type: T.to_string(),
        requires_program: true,
        dependencies: deps.iter().map(|d| TaskId::new(*d, T.to_string())).collect(),
    };
    let root = Concept {
        uuid: 100 + uuid,
        object_type: T.to_string(),
        tag: None,
        index_as_child: 0,
        children: vec![],
    };
    ConstraintState::new(&info, &root, vec![AncestorRecord::new(1, "Universe".to_string(), None, 0)])
}

fn python() -> Dialect {
    Dialect::Python(Python::new(vec!["pandas".to_string()]))
}

fn task(name: &str, uuid: u128, d: Option<Dialect>, call: &str, task_name: &str) -> ConstraintState {
    let mut s = st(name, uuid, &[]);
    if let Some(d) = d {
        let program = Program {
            dialect: d.duplicate(),
            preamble: "import x".to_string(),
            call: call.to_string(),
            params: ParameterTuple { args: vec![], kwargs: KeywordMap::new() },
        };
        let c = args_of(&program);
        s.satisfy(&vec![d], &vec![program], &c);
    }
    s.set_task_name(task_name.to_string());
    s
}

fn args_of(p: &Program) -> ComputedArgs {
    ComputedArgs {
        preamble: p.preamble.clone(),
        call: p.call.clone(),
        params: p.params.duplicate(),
        dialect: p.dialect.duplicate(),
        context: Context::new(),
    }
}

fn ident(name: &str) -> AST {
    AST::SimpleIdentifier(SimpleIdentifier::new_wrapped(name.to_string()))
}

fn is_ident(a: &AST, name: &str) -> bool {
    ast_eq(a, &ident(name))
}

#[test]
fn standalone_tasks_run_after_their_dependencies() {
    let a = task("A", 1, Some(python()), "f", "a_task");
    let dep = task("D", 7, Some(python()), "d", "d_task");
    let mut b = st("B", 2, &[7]);
    b.mark_dependency_as_satisfied(&dep, &TaskId::new(7, T.to_string()));
    let pb = Program {
        dialect: python(),
        preamble: "import y".to_string(),
        call: "g".to_string(),
        params: ParameterTuple { args: vec![], kwargs: KeywordMap::new() },
    };
    let cb = args_of(&pb);
    b.satisfy(&vec![python()], &vec![pb], &cb);
    b.set_task_name("b_task".to_string());
    let mut identifiers = HashMap::new();
    identifiers.insert(7u128, ident("d_val"));

    let (tasks, ids, params) = create_standalone_tasks(vec![a, b], None, &identifiers);
    assert_eq!(tasks.len(), 2);
    assert_eq!(tasks[0].task_name, "a_task");
    assert!(is_ident(&tasks[0].task_val, "a_task"));
    assert_eq!(tasks[0].call, Some("f".to_string()));
    assert_eq!(tasks[0].preamble, Some("import x".to_string()));
    assert!(tasks[0].dependencies.is_empty());
    assert!(tasks[0].dialect.as_ref().unwrap().equals(&python()));
    assert_eq!(tasks[1].dependencies.len(), 1);
    assert!(is_ident(&tasks[1].dependencies[0], "d_val"));
    assert_eq!(ids.len(), 2);
    assert!(is_ident(&ids[&1], "a_task"));
    assert!(is_ident(&ids[&2], "b_task"));
    assert_eq!(params.len(), 2);
    assert_eq!(params[0].0, "a_task");
    assert_eq!(params[1].0, "b_task");
    assert!(params[1].1.is_some());
}

#[test]
fn tasks_in_a_dictionary_are_held_by_subscript() {
    let a = task("A", 1, Some(python()), "f", "a_task");
    let dict = ident("tasks_A");
    let (tasks, ids, _) = create_standalone_tasks(vec![a], Some(dict), &HashMap::new());
    let expected = AST::Subscript(Subscript::new_wrapped(
        ident("tasks_A"),
        AST::StringLiteral(StringLiteral::new_wrapped("a_task".to_string(), false)),
        false,
    ));
    assert!(ast_eq(&tasks[0].task_val, &expected));
    assert!(ast_eq(&ids[&1], &expected));
}

#[test]
fn merged_constraints_resolve_to_their_task() {
    let mut identifiers = HashMap::new();
    identifiers.insert(9u128, ident("z"));
    let mut block = HashMap::new();
    block.insert(1u128, ident("x"));
    block.insert(2u128, ident("y"));
    let mappings = vec![(1u128, vec![3u128, 4u128]), (2u128, vec![2u128]), (5u128, vec![6u128])];
    register_identifiers(&mut identifiers, &block, &mappings);
    assert_eq!(identifiers.len(), 5);
    assert!(is_ident(&identifiers[&9], "z"));
    assert!(is_ident(&identifiers[&1], "x"));
    assert!(is_ident(&identifiers[&3], "x"));
    assert!(is_ident(&identifiers[&4], "x"));
    assert!(is_ident(&identifiers[&2], "y"));
    assert!(!identifiers.contains_key(&5));
    assert!(!identifiers.contains_key(&6));
}

#[test]
fn states_are_split_by_dialect_in_order_of_first_appearance() {
    let members = vec![
        task("A", 1, Some(python()), "f", "t1"),
        task("A", 2, None, "", "t2"),
        task("A", 3, Some(python()), "g", "t3"),
        task("A", 4, Some(Dialect::Bash(Bash::new())), "h", "t4"),
    ];
    let mappings = vec![(1, vec![]), (2, vec![2]), (3, vec![5]), (4, vec![])];
    let groups = split_by_dialect(members, mappings);
    let uuids: Vec<Vec<u128>> = groups.iter().map(|g| g.0.iter().map(|s| s.constraint_uuid).collect()).collect();
    assert_eq!(uuids, vec![vec![1, 3], vec![2], vec![4]]);
    assert_eq!(groups[0].1[1].1, vec![5]);
    assert_eq!(groups[1].1[0].1, vec![2]);
}

#[test]
fn code_blocks_are_built_per_dialect_and_recorded() {
    let members = vec![
        task("A", 1, Some(python()), "f", "t1"),
        task("A", 2, Some(Dialect::Bash(Bash::new())), "h", "t2"),
    ];
    let block = ProcessedBlock {
        members,
        uuid_mappings: vec![(1, vec![11]), (2, vec![])],
        tasks_dict: Some(ident("tasks_A")),
    };
    let mut identifiers = HashMap::new();
    let blocks = build_code_blocks(block, &mut identifiers);
    assert_eq!(blocks.len(), 2);
    assert_eq!(blocks[0].tasks.len(), 1);
    assert_eq!(blocks[0].tasks[0].task_name, "t1");
    assert_eq!(blocks[1].tasks[0].task_name, "t2");
    assert!(blocks[1].tasks_dict.is_some());
    assert_eq!(identifiers.len(), 3);
    assert!(ast_eq(&identifiers[&11], &identifiers[&1]));
    assert!(identifiers.contains_key(&2));
}

#[test]
fn satisfied_dependency_keys_are_task_names() {
    let a = task("A", 1, Some(python()), "f", "a_task");
    let dep = task("D", 7, Some(python()), "d", "d_task");
    let mut b = st("B", 2, &[7]);
    b.mark_dependency_as_satisfied(&dep, &TaskId::new(7, T.to_string()));
    assert_eq!(b.get_satisfied_dependency_keys(&vec![a, dep]), vec!["d_task".to_string()]);
}

fn with_kwargs(d: Dialect, call: &str) -> ConstraintState {
    let mut s = st("ReplicateData", 3, &[]);
    let mut kwargs = KeywordMap::new();
    kwargs.insert("table".to_string(), ident("t"));
    let program = Program {
        dialect: d.duplicate(),
        preamble: "import z".to_string(),
        call: call.to_string(),
        params: ParameterTuple { args: vec![ident("a")], kwargs },
    };
    let c = args_of(&program);
    s.satisfy(&vec![d], &vec![program], &c);
    s
}

#[test]
fn task_call_depends_on_dialect() {
    let py = with_kwargs(python(), "replicate");
    assert!(is_ident(&py.get_task_call().unwrap(), "replicate"));
    let bash = with_kwargs(Dialect::Bash(Bash::new()), "echo {table}");
    assert!(is_ident(&bash.get_task_call().unwrap(), "ShellTask"));
    let constant = st("Dummy", 4, &[]);
    assert!(is_ident(&constant.get_task_call().unwrap(), "ConstantTask"));
    let r = with_kwargs(Dialect::R(aorist::dialect::R::new()), "f");
    assert_eq!(r.get_task_call().err(), Some("Dialect not supported for task call: R".to_string()));
    assert_eq!(r.get_args_vec().err(), Some("Dialect not supported for args vec: R".to_string()));
    assert_eq!(r.get_kwargs_map().err().unwrap(), "Dialect not supported for kwargs map: R".to_string());
}

#[test]
fn args_and_kwargs_depend_on_dialect() {
    let py = with_kwargs(python(), "replicate");
    let args = py.get_args_vec().unwrap();
    assert_eq!(args.len(), 1);
    assert!(is_ident(&args[0], "a"));
    let kw = py.get_kwargs_map().unwrap();
    assert_eq!(kw.keys(), vec!["table".to_string()]);
    assert!(is_ident(kw.get(&"table".to_string()).unwrap(), "t"));

    let bash = with_kwargs(Dialect::Bash(Bash::new()), "echo {table}");
    assert!(bash.get_args_vec().unwrap().is_empty());
    let kw = bash.get_kwargs_map().unwrap();
    assert_eq!(kw.keys(), vec!["command".to_string()]);
    match kw.get(&"command".to_string()).unwrap() {
        AST::Formatted(f) => {
            let lit = AST::StringLiteral(StringLiteral::new_wrapped("echo {table}".to_string(), false));
            assert!(ast_eq(&f.fmt, &lit));
            assert_eq!(f.keywords.keys(), vec!["table".to_string()]);
        }
        _ => panic!("expected a formatted command"),
    }

    let constant = st("Dummy", 4, &[]);
    let args = constant.get_args_vec().unwrap();
    assert_eq!(args.len(), 1);
    let lit = AST::StringLiteral(StringLiteral::new_wrapped("Dummy".to_string(), false));
    assert!(ast_eq(&args[0], &lit));
    assert_eq!(constant.get_kwargs_map().unwrap().len(), 0);
}

#[test]
fn dedup_key_is_the_program() {
    let py = with_kwargs(python(), "replicate");
    let (pre, call, params, d) = py.get_dedup_key();
    assert_eq!(pre, "import z");
    assert_eq!(call, "replicate");
    assert_eq!(params.args.len(), 1);
    assert!(d.unwrap().equals(&python()));
}
