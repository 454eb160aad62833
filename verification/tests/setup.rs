use aorist::ancestor_record::TaskId;
use aorist::ancestry::{
    attach_constraints, compute_all_ancestors, generate_constraint_states_map,
    attach_all_constraints, generate_family_trees, get_concept_map_by_object_type, get_potential_children,
    new_generated,
};
use aorist::builders::{discover_builders, get_relevant_builders, sort_builders, BuilderInfo};
use aorist::constraint_state::{Concept, ConstraintInfo};
use linked_hash_set::LinkedHashSet;
use linked_hash_map::LinkedHashMap;
use aorist::satisfaction::collect_names;

fn s(x: &str) -> String {
    x.to_string()
}

fn builder(name: &str, required: &[&str]) -> BuilderInfo {
    BuilderInfo { name: s(name), required: required.iter().map(|r| s(r)).collect() }
}

fn names(v: &[BuilderInfo]) -> Vec<String> {
    v.iter().map(|b| b.name.clone()).collect()
}

#[test]
fn relevant_builders_come_after_their_requirements() {
    let bs = vec![builder("A", &["B"]), builder("B", &[]), builder("C", &["B"]), builder("D", &[])];
    let tops = collect_names(&vec![s("C"), s("A"), s("C")]);
    let r = get_relevant_builders(&bs, &tops);
    assert_eq!(names(&r), vec![s("B"), s("A"), s("C")]);
    assert_eq!(r[1].required, vec![s("B")]);
    let reversed: LinkedHashSet<String> = vec![s("C"), s("A")].into_iter().collect();
    assert_eq!(names(&get_relevant_builders(&bs, &reversed)), vec![s("B"), s("C"), s("A")]);
}

#[test]
fn discovery_is_breadth_first() {
    let bs = vec![
        builder("Top", &["X", "Y"]),
        builder("X", &["Z"]),
        builder("Y", &["Z"]),
        builder("Z", &[]),
    ];
    let found = discover_builders(&bs, &vec![s("Top")]);
    assert_eq!(found, vec![s("Top"), s("X"), s("Y"), s("Z")]);
    let sorted = sort_builders(&bs, &found);
    assert_eq!(sorted, vec![s("Z"), s("X"), s("Y"), s("Top")]);
    let tops: LinkedHashSet<String> = vec![s("Top")].into_iter().collect();
    let r = get_relevant_builders(&bs, &tops);
    assert_eq!(names(&r), sorted);
}

fn concept(uuid: u128, t: &str, tag: Option<&str>, ix: usize, children: &[(u128, &str)]) -> Concept {
    Concept {
        uuid,
        object_type: s(t),
        tag: tag.map(|x| s(x)),
        index_as_child: ix,
        children: children.iter().map(|(u, t)| TaskId::new(*u, s(t))).collect(),
    }
}

fn universe_concepts() -> (Concept, Vec<Concept>) {
    let u = concept(1, "Universe", None, 0, &[(2, "DataSet")]);
    let cs = vec![
        concept(1, "Universe", None, 0, &[(2, "DataSet")]),
        concept(2, "DataSet", None, 1, &[(3, "StaticDataTable"), (4, "StaticDataTable")]),
        concept(3, "StaticDataTable", Some("t3"), 0, &[]),
        concept(4, "StaticDataTable", None, 1, &[]),
    ];
    (u, cs)
}

#[test]
fn ancestors_are_walked_from_the_universe() {
    let (u, cs) = universe_concepts();
    let anc = compute_all_ancestors(&u, &cs);
    let keys: Vec<u128> = anc.iter().map(|(k, _)| k.uuid).collect();
    assert_eq!(keys, vec![1, 2, 3, 4]);
    let universe_records = &anc[0].1;
    assert_eq!(universe_records.len(), 1);
    assert!(universe_records[0].tag.is_none());
    assert_eq!(universe_records[0].ix, 0);
    let table = &anc[2].1;
    assert_eq!(table.iter().map(|r| r.uuid).collect::<Vec<_>>(), vec![1, 2, 3]);
    assert_eq!(table[2].tag, Some(s("t3")));
    assert_eq!(anc[3].1[2].ix, 1);
}

fn members(trees: &[(TaskId, Vec<(String, Vec<u128>)>)], uuid: u128, t: &str) -> Vec<u128> {
    let tree = &trees.iter().find(|(k, _)| k.uuid == uuid).unwrap().1;
    let mut v = tree.iter().find(|(k, _)| k == t).map(|(_, u)| u.clone()).unwrap_or_default();
    v.sort();
    v
}

#[test]
fn family_trees_hold_ancestors_and_descendants() {
    let (u, cs) = universe_concepts();
    let anc = compute_all_ancestors(&u, &cs);
    let trees = generate_family_trees(&anc);
    assert_eq!(members(&trees, 2, "StaticDataTable"), vec![3, 4]);
    assert_eq!(members(&trees, 2, "Universe"), vec![1]);
    assert_eq!(members(&trees, 2, "DataSet"), vec![2]);
    assert_eq!(members(&trees, 3, "DataSet"), vec![2]);
    assert_eq!(members(&trees, 3, "StaticDataTable"), vec![3]);
    assert_eq!(members(&trees, 1, "StaticDataTable"), vec![3, 4]);
}

#[test]
fn concepts_are_grouped_by_type() {
    let (_, cs) = universe_concepts();
    let m = get_concept_map_by_object_type(cs);
    assert_eq!(m.len(), 3);
    let tables = &m.iter().find(|(t, _)| t == "StaticDataTable").unwrap().1;
    assert_eq!(tables.iter().map(|c| c.uuid).collect::<Vec<_>>(), vec![3, 4]);
}

#[test]
fn potential_children_follow_the_family_tree() {
    let mut inner: LinkedHashMap<(u128, String), (u128, Vec<u128>)> = LinkedHashMap::new();
    inner.insert((3, s("StaticDataTable")), (30, vec![]));
    inner.insert((4, s("StaticDataTable")), (40, vec![]));
    inner.insert((9, s("StaticDataTable")), (90, vec![]));
    let mut generated = new_generated();
    generated.insert(s("Download"), inner);
    let ft = vec![(s("StaticDataTable"), vec![3, 4]), (s("DataSet"), vec![2])];
    let r = get_potential_children(&vec![s("Download"), s("Missing")], &generated, &ft, &vec![9]);
    assert_eq!(r, vec![30, 40, 90]);
    let r = get_potential_children(&vec![s("Download")], &generated, &ft, &vec![]);
    assert_eq!(r, vec![30, 40]);
}

#[test]
fn constraints_are_attached_to_roots() {
    let (u, cs) = universe_concepts();
    let anc = compute_all_ancestors(&u, &cs);
    let trees = generate_family_trees(&anc);
    let by_type = get_concept_map_by_object_type(cs);
    let mut generated = new_generated();
    let mut visited: LinkedHashSet<String> = LinkedHashSet::new();

    let download = builder("Download", &[]);
    attach_constraints(
        &download,
        &s("StaticDataTable"),
        &by_type,
        &trees,
        &vec![(true, vec![]), (false, vec![])],
        &vec![Ok(30), Ok(40)],
        &mut generated,
        &mut visited,
    )
    .unwrap();
    assert_eq!(generated.len(), 1);
    let dl = &generated[&s("Download")];
    assert_eq!(dl.len(), 1);
    assert_eq!(dl[&(3, s("StaticDataTable"))].0, 30);
    assert_eq!(visited.iter().cloned().collect::<Vec<_>>(), vec![s("Download")]);

    let report = builder("Report", &["Download"]);
    attach_constraints(
        &report,
        &s("DataSet"),
        &by_type,
        &trees,
        &vec![(true, vec![])],
        &vec![Ok(20)],
        &mut generated,
        &mut visited,
    )
    .unwrap();
    assert_eq!(generated.len(), 2);
    assert_eq!(generated.keys().cloned().collect::<Vec<_>>(), vec![s("Download"), s("Report")]);
    let report_entry = generated[&s("Report")].values().next().unwrap();
    assert_eq!(report_entry.0, 20);
    assert_eq!(report_entry.1, vec![30]);
    assert_eq!(visited.iter().cloned().collect::<Vec<_>>(), vec![s("Download"), s("Report")]);

    attach_constraints(&download, &s("Missing"), &by_type, &trees, &vec![], &vec![], &mut generated, &mut visited).unwrap();
    assert_eq!(generated.len(), 2);
    assert_eq!(visited.iter().cloned().collect::<Vec<_>>(), vec![s("Report"), s("Download")]);
}

#[test]
fn constraint_states_are_generated_on_their_roots() {
    let (u, cs) = universe_concepts();
    let anc = compute_all_ancestors(&u, &cs);
    let constraints = vec![
        ConstraintInfo {
            name: s("Download"),
            uuid: 30,
            root_uuid: 3,
            root_type: s("StaticDataTable"),
            requires_program: true,
            dependencies: vec![],
        },
        ConstraintInfo {
            name: s("Report"),
            uuid: 20,
            root_uuid: 2,
            root_type: s("DataSet"),
            requires_program: false,
            dependencies: vec![TaskId::new(30, s("StaticDataTable")), TaskId::new(40, s("StaticDataTable")), TaskId::new(30, s("StaticDataTable"))],
        },
    ];
    let states = generate_constraint_states_map(&constraints, &cs, &anc);
    assert_eq!(states.len(), 2);
    assert_eq!(states[0].root_tag, Some(s("t3")));
    assert_eq!(states[0].ancestors.len(), 3);
    assert_eq!(states[1].root_uuid, 2);
    assert_eq!(states[1].ancestors.len(), 2);
    let pending: Vec<u128> = states[1].unsatisfied_dependencies.iter().map(|d| d.0).collect();
    assert_eq!(pending, vec![40, 30]);
}

#[test]
fn builders_are_attached_in_order() {
    let (u, cs) = universe_concepts();
    let anc = compute_all_ancestors(&u, &cs);
    let trees = generate_family_trees(&anc);
    let by_type = get_concept_map_by_object_type(cs);
    let mut generated = new_generated();
    let mut visited = collect_names(&vec![]);
    attach_all_constraints(
        &vec![builder("Download", &[]), builder("Report", &["Download"])],
        &vec![s("StaticDataTable"), s("DataSet")],
        &by_type,
        &trees,
        &vec![vec![(true, vec![]), (true, vec![])], vec![(true, vec![])]],
        &vec![vec![Ok(30), Ok(40)], vec![Ok(20)]],
        &mut generated,
        &mut visited,
    )
    .unwrap();
    assert_eq!(generated.keys().cloned().collect::<Vec<_>>(), vec![s("Download"), s("Report")]);
    assert_eq!(generated[&s("Download")].len(), 2);
    let report = generated[&s("Report")].values().next().unwrap();
    assert_eq!(report.0, 20);
    assert_eq!(report.1, vec![30, 40]);
    assert_eq!(visited.iter().cloned().collect::<Vec<_>>(), vec![s("Download"), s("Report")]);
}

#[test]
fn a_failed_build_stops_attaching() {
    let (u, cs) = universe_concepts();
    let anc = compute_all_ancestors(&u, &cs);
    let trees = generate_family_trees(&anc);
    let by_type = get_concept_map_by_object_type(cs);
    let mut generated = new_generated();
    let mut visited = collect_names(&vec![]);
    let r = attach_constraints(
        &builder("Download", &[]),
        &s("StaticDataTable"),
        &by_type,
        &trees,
        &vec![(true, vec![]), (true, vec![])],
        &vec![Ok(30), Err(s("no table"))],
        &mut generated,
        &mut visited,
    );
    assert_eq!(r, Err(s("no table")));
    assert_eq!(generated[&s("Download")].len(), 1);
    assert_eq!(visited.len(), 0);

    let mut generated = new_generated();
    let mut visited = collect_names(&vec![]);
    let r = attach_all_constraints(
        &vec![builder("Download", &[]), builder("Report", &["Download"])],
        &vec![s("StaticDataTable"), s("DataSet")],
        &by_type,
        &trees,
        &vec![vec![(true, vec![]), (true, vec![])], vec![(true, vec![])]],
        &vec![vec![Ok(30), Ok(40)], vec![Err(s("no report"))]],
        &mut generated,
        &mut visited,
    );
    assert_eq!(r, Err(s("no report")));
    assert_eq!(generated.keys().cloned().collect::<Vec<_>>(), vec![s("Download")]);
    assert_eq!(visited.iter().cloned().collect::<Vec<_>>(), vec![s("Download")]);
}
