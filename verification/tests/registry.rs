use extractor::ast_node::{ASTNode, MemberDescriptor};
use extractor::config_util::ConfigUtil;
use extractor::error::{ConfigError, ExtractError, InvariantError, ReadError};
use extractor::executable::{derive_id, Executable};
use extractor::executor::Executor;
use extractor::registry::{Constraint, NodeList, Registry};
use extractor::table::TextTable;
use extractor::type_kind::TypeKind;

fn word(last: &str) -> String {
    format!("{}{}", "0".repeat(64 - last.len()), last)
}

fn primitive(id: u64, name: &str) -> Executable {
    Executable::new(
        id,
        name.to_string(),
        "t_uint256".to_string(),
        None,
        TypeKind::Primitive,
        "t_uint256".to_string(),
        0,
        "0".to_string(),
        None,
        None,
    )
}

fn registry() -> Registry {
    let mut types = ASTNode::new();
    types.insert(
        "t_struct(Root)1_storage".to_string(),
        vec![
            MemberDescriptor::new("a".to_string(), "0".to_string(), 0, "t_uint256".to_string()),
            MemberDescriptor::new(
                "list".to_string(),
                "1".to_string(),
                0,
                "t_array(t_struct(T)2_storage)dyn_storage".to_string(),
            ),
        ],
    );
    types.insert(
        "t_struct(T)2_storage".to_string(),
        vec![MemberDescriptor::new("x".to_string(), "0".to_string(), 0, "t_uint256".to_string())],
    );
    types.insert("t_array(t_struct(T)2_storage)dyn_storage".to_string(), vec![]);
    types.insert("t_uint256".to_string(), vec![]);
    Registry::new(types, vec![Constraint::new(7)])
}

#[test]
fn a_new_registry_is_empty() {
    let reg = registry();
    assert!(reg.queue_per_step.is_empty());
    assert!(reg.visited.nodes.is_empty());
    assert!(reg.output_flatten.nodes.is_empty());
    assert!(reg.roots.is_empty());
    assert!(reg.absolute_slots.map.is_empty());
    assert!(reg.values.map.is_empty());
    assert!(reg.iterish_from_to.is_empty());
    assert_eq!(reg.constraints.len(), 1);
    assert_eq!(reg.constraints[0].cid, 7);
    assert!(reg.constraints[0].from.is_none() && reg.constraints[0].to.is_none());
    assert!(reg.get_output_flatten().is_empty());
}

#[test]
fn slots_are_written_once() {
    let mut reg = registry();
    assert_eq!(reg.bulk_set_absolute_slots(&vec![(1, word("01")), (2, word("02"))]), Ok(()));
    // The same slot again is no fault.
    assert_eq!(reg.bulk_set_absolute_slots(&vec![(1, word("01")), (3, word("03"))]), Ok(()));
    assert_eq!(reg.absolute_slots.get(3), Some(&word("03")));
    // A different slot is, and then nothing of the call is recorded.
    assert_eq!(
        reg.bulk_set_absolute_slots(&vec![(4, word("04")), (2, word("ff"))]),
        Err(InvariantError::DoubleWrite)
    );
    assert!(!reg.absolute_slots.contains(4));
    assert_eq!(reg.absolute_slots.get(2), Some(&word("02")));
    // So are two different slots for one node within a call.
    assert_eq!(
        reg.bulk_set_absolute_slots(&vec![(5, word("05")), (5, word("06"))]),
        Err(InvariantError::DoubleWrite)
    );
    assert!(!reg.absolute_slots.contains(5));
    assert_eq!(reg.bulk_set_absolute_slots(&vec![(5, word("05")), (5, word("05"))]), Ok(()));
    assert_eq!(
        reg.bulk_set_absolute_slots(&vec![(6, word("06")), (7, "0x06".to_string())]),
        Err(InvariantError::MalformedSlot)
    );
    assert!(!reg.absolute_slots.contains(6));
    assert_eq!(
        reg.bulk_set_absolute_slots(&vec![(2, word("ff")), (7, "06".to_string())]),
        Err(InvariantError::MalformedSlot)
    );
}

#[test]
fn values_are_written_once() {
    let mut reg = registry();
    assert_eq!(reg.bulk_save_values(&vec![(1, word("aa"))]), Ok(()));
    assert_eq!(reg.bulk_save_values(&vec![(1, word("aa"))]), Ok(()));
    assert_eq!(reg.bulk_save_values(&vec![(1, word("ab"))]), Err(InvariantError::DoubleWrite));
    assert_eq!(reg.bulk_save_values(&vec![(2, "AA".repeat(32))]), Err(InvariantError::MalformedSlot));
    assert_eq!(reg.values.get(1), Some(&word("aa")));
    assert_eq!(reg.values.get(2), None);

    assert_eq!(
        reg.record_read(&vec![(9, word("09"))], &vec![(9, word("01")), (1, word("ab"))]),
        Err(InvariantError::DoubleWrite)
    );
    assert!(!reg.absolute_slots.contains(9));
    assert_eq!(reg.record_read(&vec![(9, word("09"))], &vec![(9, word("01"))]), Ok(()));
    assert_eq!(reg.absolute_slots.get(9), Some(&word("09")));
    assert_eq!(reg.values.get(9), Some(&word("01")));
}

#[test]
fn bounds_are_written_once() {
    let mut reg = registry();
    assert_eq!(reg.record_bounds(1, 0, 5), Ok(()));
    assert_eq!(reg.record_bounds(1, 0, 5), Ok(()));
    assert_eq!(reg.record_bounds(1, 0, 6), Err(InvariantError::DoubleWrite));
    assert_eq!(reg.record_bounds(1, 1, 5), Err(InvariantError::DoubleWrite));
    assert_eq!(reg.iterish_from_to.get(&1), Some(&(0, 5)));
}

#[test]
fn primitives_are_emitted_once() {
    let mut reg = registry();
    assert_eq!(reg.set_primitives(&vec![primitive(1, "a"), primitive(2, "b")]), Ok(()));
    assert_eq!(
        reg.set_primitives(&vec![primitive(3, "c"), primitive(1, "a")]),
        Err(InvariantError::DoubleWrite)
    );
    assert_eq!(
        reg.set_primitives(&vec![primitive(4, "d"), primitive(4, "d")]),
        Err(InvariantError::DoubleWrite)
    );
    assert_eq!(reg.set_primitives(&vec![]), Ok(()));
    assert_eq!(reg.set_primitives(&vec![primitive(3, "c")]), Ok(()));
    let names: Vec<&str> = reg.output_flatten.nodes.iter().map(|n| n.name.as_str()).collect();
    assert_eq!(names, vec!["a", "b", "c"]);
    reg.bulk_save_values(&vec![(2, word("bb"))]).unwrap();
    assert_eq!(
        reg.get_output_flatten(),
        vec![
            ("a".to_string(), String::new()),
            ("b".to_string(), word("bb")),
            ("c".to_string(), String::new()),
        ]
    );
}

#[test]
fn queues_keep_duplicates_and_merge_them_when_read() {
    let mut reg = registry();
    reg.bulk_enqueue_execution(2, vec![primitive(1, "a"), primitive(2, "b")]);
    reg.bulk_enqueue_execution(2, vec![primitive(1, "a"), primitive(3, "c")]);
    reg.bulk_enqueue_execution(0, vec![primitive(9, "z")]);
    assert_eq!(reg.queue_per_step.len(), 3);
    assert_eq!(reg.queue_per_step[2].len(), 4);
    assert!(reg.queue_per_step[1].is_empty());
    let merged = reg.queue_for(2).unwrap();
    let names: Vec<&str> = merged.iter().map(|n| n.name.as_str()).collect();
    assert_eq!(names, vec!["a", "b", "c"]);
    assert!(reg.queue_for(1).unwrap().is_empty());
    assert!(reg.queue_for(7).unwrap().is_empty());

    // Two different nodes of one identity are a collision.
    reg.bulk_enqueue_execution(2, vec![primitive(2, "other")]);
    assert_eq!(reg.queue_for(2), Err(ConfigError::Collision));
    let failure = Executor::address_phase(2, &reg).unwrap_err();
    assert_eq!(failure.error, ExtractError::Config(ConfigError::Collision));
    assert_eq!(failure.step, 2);
    assert_eq!(failure.path, "");
}

#[test]
fn visited_nodes_keep_their_order() {
    let mut reg = registry();
    reg.bulk_save_visited(&vec![primitive(1, "a"), primitive(2, "b")]);
    reg.bulk_save_visited(&vec![primitive(2, "b"), primitive(3, "c"), primitive(3, "c")]);
    let names: Vec<&str> = reg.visited.nodes.iter().map(|n| n.name.as_str()).collect();
    assert_eq!(names, vec!["a", "b", "c"]);
    assert_eq!(reg.visited.find(2), Some(1));
    assert_eq!(reg.visited.find(4), None);
    assert_eq!(reg.visited.holds(&primitive(2, "b")), Some(true));
    assert_eq!(reg.visited.holds(&primitive(2, "x")), Some(false));
    assert_eq!(reg.visited.holds(&primitive(5, "b")), None);

    assert_eq!(reg.get_iid(ConfigUtil::calc_id(&vec!["b".to_string()])), Some(2));
    assert_eq!(reg.get_iid(ConfigUtil::calc_id(&vec!["nope".to_string()])), None);
    assert_eq!(reg.find_by_path(&vec!["c".to_string()]), Some(2));
    assert_eq!(reg.find_by_path(&vec!["c".to_string(), "d".to_string()]), None);

    let mut list = NodeList::new();
    assert_eq!(list.add(&primitive(1, "a")), Some(true));
    assert_eq!(list.add(&primitive(1, "a")), Some(false));
    assert_eq!(list.add(&primitive(1, "b")), None);
    assert_eq!(list.nodes.len(), 1);
}

#[test]
fn the_schema_knows_its_class_paths() {
    let mut reg = registry();
    reg.roots.push(primitive(1, "lonely"));
    let mut root = primitive(2, "Root");
    root.fulltype = "t_struct(Root)1_storage".to_string();
    root.type_kind = TypeKind::NaiveStruct;
    reg.roots.push(root);
    let path = |p: &[&str]| p.iter().map(|s| s.to_string()).collect::<Vec<String>>();
    assert!(reg.knows(&path(&["lonely"])));
    assert!(reg.knows(&path(&["Root"])));
    assert!(reg.knows(&path(&["Root", "a"])));
    assert!(reg.knows(&path(&["Root", "list"])));
    // The elements of a collection add no name.
    assert!(reg.knows(&path(&["Root", "list", "x"])));
    assert!(!reg.knows(&path(&[])));
    assert!(!reg.knows(&path(&["Root", "b"])));
    assert!(!reg.knows(&path(&["Root", "a", "x"])));
    assert!(!reg.knows(&path(&["Root", "list", "x", "y"])));
    assert!(!reg.knows(&path(&["lonely", "a"])));
    assert!(!reg.knows(&path(&["a"])));
    assert_eq!(reg.visit_ast("t_struct(T)2_storage").map(|m| m.len()), Some(1));
    assert!(reg.visit_ast("t_address").is_none());
}

#[test]
fn a_read_is_recorded_whole_or_not_at_all() {
    let mut reg = registry();
    let a = primitive(derive_id(0, "a"), "a");
    let b = primitive(derive_id(0, "b"), "b");
    reg.bulk_set_absolute_slots(&vec![(a.id, word("01")), (b.id, word("02"))]).unwrap();
    reg.bulk_enqueue_execution(0, vec![a.clone(), b.clone()]);

    let batch = Executor::address_phase(0, &reg).unwrap();
    assert_eq!(batch, vec![(a.id, word("01")), (b.id, word("02"))]);

    // One value short, out of order, or for another node: the response is malformed.
    for values in [
        vec![(a.id, word("0a"))],
        vec![(b.id, word("0b")), (a.id, word("0a"))],
        vec![(a.id, word("0a")), (77, word("0b"))],
    ] {
        let failure = Executor::commit_read(0, &mut reg, &values).unwrap_err();
        assert_eq!(failure.error, ExtractError::Read(ReadError::Malformed));
        assert!(reg.visited.nodes.is_empty());
        assert!(reg.values.map.is_empty());
    }
    let failure =
        Executor::commit_read(0, &mut reg, &vec![(a.id, word("0a")), (b.id, "0b".to_string())]).unwrap_err();
    assert_eq!(failure.error, ExtractError::Invariant(InvariantError::MalformedSlot));
    assert!(reg.values.map.is_empty());

    Executor::commit_read(0, &mut reg, &vec![(a.id, word("0a")), (b.id, word("0b"))]).unwrap();
    assert_eq!(reg.visited.nodes, vec![a.clone(), b.clone()]);
    assert_eq!(reg.values.get(b.id), Some(&word("0b")));
    // What is visited is not read again.
    assert!(Executor::address_phase(0, &reg).unwrap().is_empty());

    let plan = Executor::plan(0, &reg, 0).unwrap();
    assert_eq!(plan.primitives, vec![a.clone(), b.clone()]);
    assert!(plan.bounds.is_empty() && plan.next.is_empty());
    Executor::bulk_exec_and_reload(0, &mut reg, 0).unwrap();
    // Emitting the same primitives a second time fails and changes nothing.
    let failure = Executor::bulk_exec_and_reload(0, &mut reg, 0).unwrap_err();
    assert_eq!(failure.error, ExtractError::Invariant(InvariantError::DoubleWrite));
    assert_eq!(reg.output_flatten.nodes.len(), 2);
}

#[test]
fn a_node_without_a_parent_slot_fails_the_address_phase() {
    let mut reg = registry();
    let parent = primitive(1, "p");
    let mut child = primitive(2, "c");
    child.belongs_to = Some(Box::new(parent));
    reg.bulk_enqueue_execution(0, vec![child]);
    let failure = Executor::address_phase(0, &reg).unwrap_err();
    assert_eq!(failure.error, ExtractError::Invariant(InvariantError::MissingParentSlot));
    assert_eq!(failure.path, "p.c");
    assert_eq!(failure.cid, ConfigUtil::calc_id(&vec!["p".to_string(), "c".to_string()]));
    assert_eq!(failure.step, 0);
}

#[test]
fn tables_hold_one_text_for_each_identity() {
    let mut table = TextTable::new();
    assert_eq!(table.get(1), None);
    table.insert(1, "a".to_string());
    table.insert(1, "b".to_string());
    assert_eq!(table.get(1), Some(&"b".to_string()));
    assert!(table.contains(1) && !table.contains(2));
    assert!(table.agrees(&vec![(1, "b".to_string()), (2, "c".to_string()), (2, "c".to_string())]));
    assert!(!table.agrees(&vec![(1, "a".to_string())]));
    assert!(!table.agrees(&vec![(2, "c".to_string()), (3, "x".to_string()), (2, "d".to_string())]));
    let writes = vec![(2, "c".to_string()), (1, "b".to_string()), (3, "d".to_string()), (2, "c".to_string())];
    let added = table.fresh_keys(&writes);
    assert_eq!(added, vec![2, 3, 2]);
    table.record(&writes);
    assert_eq!(table.get(3), Some(&"d".to_string()));
    // Taking out the keys that the writes added gives the table back.
    table.forget(&added);
    assert_eq!(table.map.len(), 1);
    assert_eq!(table.get(1), Some(&"b".to_string()));
    table.remove(1);
    table.remove(1);
    assert!(table.map.is_empty());
}

#[test]
fn a_node_list_is_cut_down_with_its_index() {
    let mut list = NodeList::new();
    for (id, name) in [(1, "a"), (2, "b"), (3, "c")] {
        list.push(primitive(id, name));
    }
    list.truncate(3);
    assert_eq!(list.nodes.len(), 3);
    list.truncate(1);
    assert_eq!(list.nodes, vec![primitive(1, "a")]);
    assert_eq!(list.find(1), Some(0));
    assert_eq!(list.find(2), None);
    assert_eq!(list.index.len(), 1);
    assert_eq!(list.add(&primitive(2, "other")), Some(true));
    list.truncate(0);
    assert!(list.nodes.is_empty() && list.index.is_empty());
}

#[test]
fn a_whole_step_is_written_or_nothing_of_it() {
    let mut reg = registry();
    let a = primitive(derive_id(0, "a"), "a");
    reg.bulk_set_absolute_slots(&vec![(a.id, word("01"))]).unwrap();
    reg.bulk_enqueue_execution(0, vec![a.clone()]);
    // The primitive was emitted before, so the classification fails after the read
    // of the step was recorded; the record is taken back.
    reg.set_primitives(&vec![a.clone()]).unwrap();
    let failure = Executor::step(0, &mut reg, &vec![(a.id, word("0a"))], 0).unwrap_err();
    assert_eq!(failure.error, ExtractError::Invariant(InvariantError::DoubleWrite));
    assert!(reg.values.map.is_empty());
    assert!(reg.visited.nodes.is_empty() && reg.visited.index.is_empty());
    assert_eq!(reg.absolute_slots.get(a.id), Some(&word("01")));
    assert_eq!(reg.absolute_slots.map.len(), 1);
    assert_eq!(reg.queue_per_step.len(), 1);

    let mut reg = registry();
    reg.bulk_set_absolute_slots(&vec![(a.id, word("01"))]).unwrap();
    reg.bulk_enqueue_execution(0, vec![a.clone()]);
    Executor::step(0, &mut reg, &vec![(a.id, word("0a"))], 0).unwrap();
    assert_eq!(reg.get_output_flatten(), vec![("a".to_string(), word("0a"))]);
    assert_eq!(reg.visited.nodes, vec![a]);
}
