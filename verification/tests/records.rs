use aorist::ancestor_record::{AncestorRecord, TaskId};
use aorist::constraint_state::{Concept, ConstraintInfo, ConstraintState};
use aorist::context::Context;
use aorist::strings::{chars_of, str_eq, string_from_chars, string_of, usize_to_string};

fn record(uuid: u128, object_type: &str, tag: Option<&str>, ix: usize) -> AncestorRecord {
    AncestorRecord::new(uuid, object_type.to_string(), tag.map(|t| t.to_string()), ix)
}

fn state(name: &str, uuid: u128, tag: Option<&str>, ancestors: Vec<AncestorRecord>) -> ConstraintState {
    let info = ConstraintInfo {
        name: name.to_string(),
        uuid,
        root_uuid: 7,
        root_type: "StaticDataTable".to_string(),
        requires_program: true,
        dependencies: vec![],
    };
    let root = Concept {
        uuid: 7,
        object_type: "StaticDataTable".to_string(),
        tag: tag.map(|t| t.to_string()),
        index_as_child: 0,
        children: vec![],
    };
    ConstraintState::new(&info, &root, ancestors)
}

#[test]
fn relative_path_stops_at_first_tag() {
    let ancestors = vec![
        record(1, "Universe", None, 0),
        record(2, "DataSet", None, 2),
        record(3, "StaticDataTable", Some("my_table"), 0),
        record(4, "DataSchema", None, 1),
    ];
    let p = AncestorRecord::compute_relative_path(&ancestors);
    assert_eq!(p, "__data_schema_1__my_table");
}

#[test]
fn relative_path_without_tags() {
    let ancestors = vec![
        record(1, "Universe", None, 0),
        record(2, "DataSet", None, 2),
        record(3, "StaticDataTable", None, 3),
    ];
    let p = AncestorRecord::compute_relative_path(&ancestors);
    assert_eq!(p, "__static_data_table_3__data_set_2");
}

#[test]
fn relative_path_of_nothing_is_empty() {
    assert_eq!(AncestorRecord::compute_relative_path(&vec![]), "");
    let only_root = vec![record(1, "Universe", None, 0)];
    assert_eq!(AncestorRecord::compute_relative_path(&only_root), "");
}

#[test]
fn record_key_and_task_ids() {
    let r = record(9, "DataSet", None, 4);
    let k = r.get_key();
    assert_eq!(k.uuid, 9);
    assert_eq!(k.object_type, "DataSet");
    let a = TaskId::new(9, "DataSet".to_string());
    assert!(a.same_as(&k));
    assert!(!a.same_as(&TaskId::new(9, "Universe".to_string())));
    assert!(!a.same_as(&TaskId::new(8, "DataSet".to_string())));
    let d = a.duplicate();
    assert!(d.same_as(&a));
}

#[test]
fn task_key_prefers_root_tag() {
    let ancestors = vec![record(1, "Universe", None, 0), record(7, "StaticDataTable", None, 2)];
    let mut tagged = state("DownloadDataFromRemote", 5, Some("wine"), ancestors);
    assert_eq!(tagged.compute_task_key(), "wine");
    assert_eq!(tagged.get_key(), Some("wine".to_string()));

    let ancestors = vec![record(1, "Universe", None, 0), record(7, "StaticDataTable", None, 2)];
    let mut untagged = state("DownloadDataFromRemote", 5, None, ancestors);
    assert_eq!(untagged.compute_task_key(), "__static_data_table_2");
}

#[test]
fn fully_qualified_task_name_with_key() {
    let mut s = state(
        "DownloadDataFromRemote",
        0x123456789abcdef0123456789abcdef0,
        Some("abc"),
        vec![],
    );
    s.compute_task_key();
    assert_eq!(
        s.get_fully_qualified_task_name(),
        "download_data_from_remote__abc__12345678"
    );
}

#[test]
fn fully_qualified_task_name_with_empty_key() {
    let mut s = state("ReplicateToLocal", 0x00000000ffffffff0000000000000001, None, vec![]);
    assert_eq!(s.compute_task_key(), "");
    assert_eq!(s.get_fully_qualified_task_name(), "replicate_to_local__00000000");
}

#[test]
fn new_state_is_pending_on_every_dependency() {
    let info = ConstraintInfo {
        name: "A".to_string(),
        uuid: 1,
        root_uuid: 2,
        root_type: "Universe".to_string(),
        requires_program: false,
        dependencies: vec![TaskId::new(3, "B".to_string()), TaskId::new(4, "C".to_string())],
    };
    let root = Concept {
        uuid: 2,
        object_type: "Universe".to_string(),
        tag: None,
        index_as_child: 0,
        children: vec![],
    };
    let s = ConstraintState::new(&info, &root, vec![]);
    assert!(!s.satisfied);
    assert_eq!(s.get_name(), "A");
    assert_eq!(s.get_constraint_uuid(), 1);
    assert_eq!(s.get_root_uuid(), 2);
    assert_eq!(s.get_root_type(), "Universe");
    assert!(!s.requires_program());
    let pending: Vec<(u128, String)> = s.unsatisfied_dependencies.iter().cloned().collect();
    assert_eq!(pending, vec![(3, "B".to_string()), (4, "C".to_string())]);
    assert!(s.get_key().is_none());
    assert!(s.get_call().is_none());
}

#[test]
fn set_task_name_is_read_back() {
    let mut s = state("A", 1, None, vec![]);
    s.set_task_name("task_a".to_string());
    assert_eq!(s.get_task_name(), "task_a");
}

#[test]
fn context_insert_unions_bindings() {
    let mut a = Context::new();
    a.bind("x".to_string(), "1".to_string());
    let mut b = Context::new();
    b.bind("x".to_string(), "1".to_string());
    b.bind("y".to_string(), "2".to_string());
    a.insert(&b);
    assert_eq!(a.get(&"x".to_string()), Some(&"1".to_string()));
    assert_eq!(a.get(&"y".to_string()), Some(&"2".to_string()));
    assert_eq!(a.get(&"z".to_string()), None);
    // inserting the same bindings again changes nothing
    a.insert(&b);
    assert_eq!(a.get(&"y".to_string()), Some(&"2".to_string()));
    assert_eq!(Context::new().get(&"x".to_string()), None);
}

#[test]
fn string_helpers() {
    assert_eq!(usize_to_string(0), "0");
    assert_eq!(usize_to_string(1234567), "1234567");
    assert_eq!(usize_to_string(usize::MAX), usize::MAX.to_string());
    assert_eq!(string_of("héllo"), "héllo");
    assert_eq!(chars_of("ab"), vec!['a', 'b']);
    assert_eq!(string_from_chars(&vec!['x', 'é']), "xé");
    assert!(str_eq("abc", "abc"));
    assert!(!str_eq("abc", "abd"));
}
