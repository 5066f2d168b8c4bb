use extractor::ast_node::{ASTNode, MemberDescriptor};
use extractor::config_util::ConfigUtil;
use extractor::context::Context;
use extractor::error::{ConfigError, DescriptorError, EvaluationError, ExtractError, InvariantError};
use extractor::executor::Executor;
use extractor::extractor::{BaseSlot, Extractor};
use extractor::registry::{Constraint, Registry};

fn word(last: &str) -> String {
    format!("{}{}", "0".repeat(64 - last.len()), last)
}

fn member(label: &str, slot: &str, type_str: &str) -> MemberDescriptor {
    MemberDescriptor::new(label.to_string(), slot.to_string(), 0, type_str.to_string())
}

fn root(name: &str, type_str: &str, slot: &str) -> BaseSlot {
    BaseSlot { name: name.to_string(), type_str: type_str.to_string(), slot: word(slot) }
}

fn hint(name: &str, from: &str, to: &str) -> Constraint {
    let class_path = ConfigUtil::to_class_paths(name);
    Constraint {
        cid: ConfigUtil::calc_id(&class_path),
        class_path,
        from: Some(ConfigUtil::parse_config(from).unwrap()),
        to: Some(ConfigUtil::parse_config(to).unwrap()),
    }
}

fn engine(types: ASTNode, hints: Vec<Constraint>, roots: Vec<BaseSlot>) -> Extractor {
    let mut e = Extractor::new(Context { registry: Registry::new(types, hints) });
    e.init_members_from_compiler(&roots).unwrap();
    e
}

fn element_slot_of(key: &str, parent_last_byte: u8) -> String {
    let mut preimage = key.as_bytes().to_vec();
    let mut parent = [0u8; 32];
    parent[31] = parent_last_byte;
    preimage.extend_from_slice(&parent);
    ethers::utils::hex::encode(ethers::utils::keccak256(&preimage))
}

const ROOT_T: &str = "t_struct(Root)1_storage";
const S_T: &str = "t_struct(S)2_storage";
const ARRAY_T: &str = "t_array(t_uint256)dyn_storage";
const MAPPING_T: &str = "t_mapping(t_address,t_uint256)";

#[test]
fn single_primitive_root() {
    let mut types = ASTNode::new();
    types.insert(ROOT_T.to_string(), vec![member("owner", "0", "t_address")]);
    types.insert("t_address".to_string(), vec![]);
    let mut e = engine(types, vec![], vec![root("Root", ROOT_T, "00")]);
    let storage = vec![(word("00"), word("01"))];
    let stopped = e.scan_contract(&storage, 0).unwrap();
    assert_eq!(
        e.state.context.registry.get_output_flatten(),
        vec![("Root.owner".to_string(), word("01"))]
    );
    // The root is read at step 0 and its member at step 1; nothing is queued for step 2.
    assert_eq!(stopped, 2);
    assert_eq!(e.state.step, 2);
}

#[test]
fn struct_of_two_primitives() {
    let mut types = ASTNode::new();
    types.insert(S_T.to_string(), vec![member("a", "0", "t_uint256"), member("b", "1", "t_uint256")]);
    types.insert("t_uint256".to_string(), vec![]);
    let mut e = engine(types, vec![], vec![root("S", S_T, "00")]);
    let storage = vec![(word("00"), word("aa")), (word("01"), word("bb"))];
    let stopped = e.scan_contract(&storage, 0).unwrap();
    assert_eq!(
        e.state.context.registry.get_output_flatten(),
        vec![("S.a".to_string(), word("aa")), ("S.b".to_string(), word("bb"))]
    );
    assert_eq!(stopped, 2);
    // Struct linearity on the recorded slots.
    let reg = &e.state.context.registry;
    let out = &reg.output_flatten.nodes;
    assert_eq!(reg.absolute_slots.get(out[0].id), Some(&word("00")));
    assert_eq!(reg.absolute_slots.get(out[1].id), Some(&word("01")));
}

#[test]
fn fixed_bound_array() {
    let mut types = ASTNode::new();
    types.insert(ARRAY_T.to_string(), vec![]);
    types.insert("t_uint256".to_string(), vec![]);
    let mut e = engine(types, vec![hint("A", "0", "2")], vec![root("A", ARRAY_T, "05")]);
    let first = element_slot_of("0", 5);
    let second = element_slot_of("1", 5);
    let storage = vec![
        (word("05"), word("02")),
        (first.clone(), word("0a")),
        (second.clone(), word("0b")),
    ];
    e.scan_contract(&storage, 0).unwrap();
    let reg = &e.state.context.registry;
    assert_eq!(
        reg.get_output_flatten(),
        vec![("A.0".to_string(), word("0a")), ("A.1".to_string(), word("0b"))]
    );
    let out = &reg.output_flatten.nodes;
    assert_eq!(reg.absolute_slots.get(out[0].id), Some(&first));
    assert_eq!(reg.absolute_slots.get(out[1].id), Some(&second));
    assert_eq!(out[0].mapping_key, Some("0".to_string()));
    assert_eq!(out[1].mapping_key, Some("1".to_string()));
    assert_eq!(reg.iterish_from_to.get(&reg.roots[0].id), Some(&(0, 2)));
}

#[test]
fn mapping_keyed_by_prior_value() {
    let mut types = ASTNode::new();
    types.insert(MAPPING_T.to_string(), vec![]);
    types.insert("t_uint256".to_string(), vec![]);
    let mut e = engine(
        types,
        vec![hint("counts", "0", "userCount")],
        vec![root("counts", MAPPING_T, "02"), root("userCount", "t_uint256", "01")],
    );
    let storage = vec![(word("01"), word("03")), (element_slot_of("1", 2), word("07"))];

    // Step 0 reads both roots.
    let batch = Executor::address_phase(0, &e.state.context.registry).unwrap();
    assert_eq!(batch.len(), 2);
    assert_eq!(batch[0].1, word("02"));
    assert_eq!(batch[1].1, word("01"));

    e.scan_contract(&storage, 0).unwrap();
    let reg = &e.state.context.registry;
    // The step after the one that read `userCount` reads three elements of the mapping.
    assert_eq!(reg.queue_per_step[1].len(), 3);
    assert_eq!(
        reg.get_output_flatten(),
        vec![
            ("userCount".to_string(), word("03")),
            ("counts.0".to_string(), word("00")),
            ("counts.1".to_string(), word("07")),
            ("counts.2".to_string(), word("00")),
        ]
    );
    let elements = &reg.queue_per_step[1];
    assert_eq!(reg.absolute_slots.get(elements[1].id), Some(&element_slot_of("1", 2)));
    assert_eq!(elements[0].key_type, Some("t_address".to_string()));
    assert_eq!(elements[0].fulltype, "t_uint256");
}

fn deferred_setup() -> Extractor {
    let mut types = ASTNode::new();
    types.insert(ROOT_T.to_string(), vec![member("a", "0", ARRAY_T)]);
    types.insert(ARRAY_T.to_string(), vec![]);
    types.insert("t_uint256".to_string(), vec![]);
    engine(
        types,
        vec![hint("B", "0", "Root.a"), hint("Root.a", "0", "1")],
        vec![root("B", ARRAY_T, "09"), root("Root", ROOT_T, "00")],
    )
}

#[test]
fn unresolved_then_resolved() {
    let mut e = deferred_setup();
    let storage = vec![(word("00"), word("02"))];

    // First step: `Root.a` is not visited yet, so B is put off.
    let batch = Executor::address_phase(0, &e.state.context.registry).unwrap();
    let values: Vec<(u64, String)> =
        batch.iter().map(|(id, slot)| (*id, if *slot == word("00") { word("02") } else { word("00") })).collect();
    Executor::commit_read(0, &mut e.state.context.registry, &values).unwrap();
    Executor::bulk_exec_and_reload(0, &mut e.state.context.registry, 0).unwrap();
    {
        let reg = &e.state.context.registry;
        let b = &reg.roots[0];
        assert!(reg.iterish_from_to.get(&b.id).is_none());
        let next: Vec<String> = reg.queue_per_step[1].iter().map(|n| n.fullname()).collect();
        assert_eq!(next, vec!["B".to_string(), "Root.a".to_string()]);
    }

    // Second step: `Root.a` is read, its value 2 resolves the bounds of B.
    e.state.step = 1;
    e.scan_contract(&storage, 0).unwrap();
    let reg = &e.state.context.registry;
    let b = &reg.roots[0];
    assert_eq!(reg.iterish_from_to.get(&b.id), Some(&(0, 2)));
    let paths: Vec<String> = reg.get_output_flatten().into_iter().map(|p| p.0).collect();
    assert_eq!(paths, vec!["B.0".to_string(), "B.1".to_string(), "Root.a.0".to_string()]);
}

#[test]
fn a_deferred_node_is_read_once() {
    let mut e = deferred_setup();
    let first = Executor::address_phase(0, &e.state.context.registry).unwrap();
    let values: Vec<(u64, String)> = first.iter().map(|(id, _)| (*id, word("02"))).collect();
    Executor::commit_read(0, &mut e.state.context.registry, &values).unwrap();
    Executor::bulk_exec_and_reload(0, &mut e.state.context.registry, 0).unwrap();
    let second = Executor::address_phase(1, &e.state.context.registry).unwrap();
    // B is queued again at step 1 but not read again.
    assert_eq!(e.state.context.registry.queue_per_step[1].len(), 2);
    assert_eq!(second.len(), 1);
    for (id, _) in &first {
        assert!(second.iter().all(|(other, _)| other != id));
    }
}

#[test]
fn divide_by_zero_in_hint() {
    let mut types = ASTNode::new();
    types.insert(ARRAY_T.to_string(), vec![]);
    types.insert("t_uint256".to_string(), vec![]);
    let mut e = engine(
        types,
        vec![hint("arr", "0", "a/b")],
        vec![root("a", "t_uint256", "01"), root("b", "t_uint256", "02"), root("arr", ARRAY_T, "03")],
    );
    let storage = vec![(word("01"), word("06")), (word("02"), word("00"))];
    let failure = e.scan_contract(&storage, 0).unwrap_err();
    assert_eq!(failure.error, ExtractError::Evaluation(EvaluationError::DivideByZero));
    assert_eq!(failure.cid, ConfigUtil::calc_id(&vec!["arr".to_string()]));
    assert_eq!(failure.path, "arr");
    assert_eq!(failure.step, 0);
    // The step that failed wrote nothing: the registry is as the seeding left it.
    let reg = &e.state.context.registry;
    assert_eq!(e.state.step, 0);
    assert!(reg.values.map.is_empty());
    assert!(reg.visited.nodes.is_empty());
    assert!(reg.visited.index.is_empty());
    assert_eq!(reg.absolute_slots.map.len(), 3);
    assert!(reg.output_flatten.nodes.is_empty());
    assert!(reg.iterish_from_to.is_empty());
    assert_eq!(reg.queue_per_step.len(), 1);
}

#[test]
fn bounds_unresolved_at_the_step_limit() {
    let element = "t_struct(T)3_storage";
    let outer = "t_array(t_struct(T)3_storage)dyn_storage";
    let mut types = ASTNode::new();
    types.insert(outer.to_string(), vec![]);
    types.insert(element.to_string(), vec![member("x", "0", "t_uint256")]);
    types.insert(ARRAY_T.to_string(), vec![]);
    types.insert("t_uint256".to_string(), vec![]);
    // `items.x` is part of the schema, but `items` is empty, so no node ever has that path.
    let mut e = engine(
        types,
        vec![hint("items", "0", "0"), hint("B", "0", "items.x")],
        vec![root("items", outer, "01"), root("B", ARRAY_T, "02")],
    );
    let failure = e.scan_contract(&vec![], 0).unwrap_err();
    assert_eq!(failure.error, ExtractError::Invariant(InvariantError::StepLimitExceeded));
    assert_eq!(failure.step, 16);
    assert_eq!(e.state.step, 16);
}

#[test]
fn unknown_name_in_hint_is_fatal() {
    let mut types = ASTNode::new();
    types.insert(ARRAY_T.to_string(), vec![]);
    types.insert("t_uint256".to_string(), vec![]);
    let mut e = engine(types, vec![hint("B", "0", "nowhere")], vec![root("B", ARRAY_T, "02")]);
    let failure = e.scan_contract(&vec![], 0).unwrap_err();
    assert_eq!(failure.error, ExtractError::Config(ConfigError::UnknownName));
    assert_eq!(failure.path, "B");
}

#[test]
fn collection_without_hint_is_fatal() {
    let mut types = ASTNode::new();
    types.insert(ARRAY_T.to_string(), vec![]);
    types.insert("t_uint256".to_string(), vec![]);
    let mut e = engine(types, vec![], vec![root("B", ARRAY_T, "02")]);
    let failure = e.scan_contract(&vec![], 0).unwrap_err();
    assert_eq!(failure.error, ExtractError::Config(ConfigError::MissingHint));
}

#[test]
fn missing_descriptor_is_fatal() {
    let mut types = ASTNode::new();
    types.insert(ROOT_T.to_string(), vec![member("owner", "0", "t_address")]);
    let mut e = engine(types, vec![], vec![root("Root", ROOT_T, "00")]);
    let failure = e.scan_contract(&vec![], 0).unwrap_err();
    assert_eq!(failure.error, ExtractError::Descriptor(DescriptorError::MissingType));
    assert_eq!(failure.path, "Root");

    let mut e = Extractor::new(Context { registry: Registry::new(ASTNode::new(), vec![]) });
    let failure = e.init_members_from_compiler(&vec![root("Root", ROOT_T, "00")]).unwrap_err();
    assert_eq!(failure.error, ExtractError::Descriptor(DescriptorError::MissingType));
    assert!(e.state.context.registry.queue_per_step.is_empty());
}

#[test]
fn seeding_rejects_a_malformed_slot() {
    let mut types = ASTNode::new();
    types.insert("t_uint256".to_string(), vec![]);
    let mut e = Extractor::new(Context { registry: Registry::new(types, vec![]) });
    let bad = BaseSlot { name: "x".to_string(), type_str: "t_uint256".to_string(), slot: "0x00".to_string() };
    let failure = e.init_members_from_compiler(&vec![bad]).unwrap_err();
    assert_eq!(failure.error, ExtractError::Invariant(InvariantError::MalformedSlot));
    assert!(e.initial_members.is_empty());
}

#[test]
fn two_runs_give_the_same_output() {
    let run = || {
        let mut types = ASTNode::new();
        types.insert(MAPPING_T.to_string(), vec![]);
        types.insert("t_uint256".to_string(), vec![]);
        let mut e = engine(
            types,
            vec![hint("counts", "0", "userCount")],
            vec![root("counts", MAPPING_T, "02"), root("userCount", "t_uint256", "01")],
        );
        let storage = vec![(word("01"), word("03")), (element_slot_of("2", 2), word("09"))];
        let stopped = e.scan_contract(&storage, 7).unwrap();
        let visited: Vec<(u64, String)> =
            e.state.context.registry.visited.nodes.iter().map(|n| (n.id, n.fullname())).collect();
        (stopped, e.state.context.registry.get_output_flatten(), visited)
    };
    assert_eq!(run(), run());
}

#[test]
fn children_are_queued_one_step_later() {
    let mut types = ASTNode::new();
    types.insert(S_T.to_string(), vec![member("a", "0", "t_uint256"), member("b", "1", "t_uint256")]);
    types.insert("t_uint256".to_string(), vec![]);
    let mut e = engine(types, vec![], vec![root("S", S_T, "00")]);
    e.scan_contract(&vec![], 0).unwrap();
    let reg = &e.state.context.registry;
    assert_eq!(reg.queue_per_step.len(), 3);
    assert_eq!(reg.queue_per_step[0].len(), 1);
    assert_eq!(reg.queue_per_step[1].len(), 2);
    assert!(reg.queue_per_step[2].is_empty());
    for child in &reg.queue_per_step[1] {
        let parent = child.belongs_to.as_ref().unwrap();
        assert_eq!(parent.id, reg.queue_per_step[0][0].id);
    }
}

#[test]
fn the_step_budget_bounds_the_run() {
    // A chain of structs, each nested one deeper than the one before.
    let mut types = ASTNode::new();
    for depth in 0..20 {
        let this = format!("t_struct(N{})1_storage", depth);
        let next = format!("t_struct(N{})1_storage", depth + 1);
        types.insert(this, vec![member("next", "0", &next)]);
    }
    types.insert("t_struct(N20)1_storage".to_string(), vec![]);
    let mut e = engine(types, vec![], vec![root("N0", "t_struct(N0)1_storage", "00")]);
    let failure = e.scan_contract(&vec![], 0).unwrap_err();
    assert_eq!(failure.error, ExtractError::Invariant(InvariantError::StepLimitExceeded));
    assert_eq!(failure.step, 16);

    // With a budget that covers the depth the same schema runs to its end.
    let mut types = ASTNode::new();
    for depth in 0..20 {
        let this = format!("t_struct(N{})1_storage", depth);
        let next = format!("t_struct(N{})1_storage", depth + 1);
        types.insert(this, vec![member("next", "0", &next)]);
    }
    types.insert("t_struct(N20)1_storage".to_string(), vec![]);
    let mut e = engine(types, vec![], vec![root("N0", "t_struct(N0)1_storage", "00")]);
    e.max_steps = 32;
    assert_eq!(e.scan_contract(&vec![], 0).unwrap(), 21);
}

#[test]
fn packed_members_share_a_slot() {
    let mut types = ASTNode::new();
    types.insert(
        S_T.to_string(),
        vec![
            MemberDescriptor::new("lo".to_string(), "0".to_string(), 0, "t_uint128".to_string()),
            MemberDescriptor::new("hi".to_string(), "0".to_string(), 16, "t_uint128".to_string()),
        ],
    );
    types.insert("t_uint128".to_string(), vec![]);
    let mut e = engine(types, vec![], vec![root("S", S_T, "07")]);
    let storage = vec![(word("07"), word("0123"))];
    e.scan_contract(&storage, 0).unwrap();
    let reg = &e.state.context.registry;
    assert_eq!(
        reg.get_output_flatten(),
        vec![("S.lo".to_string(), word("0123")), ("S.hi".to_string(), word("0123"))]
    );
    assert_eq!(reg.output_flatten.nodes[0].offset, 0);
    assert_eq!(reg.output_flatten.nodes[1].offset, 16);
}

#[test]
fn bounds_may_depend_on_the_clock() {
    let mut types = ASTNode::new();
    types.insert(ARRAY_T.to_string(), vec![]);
    types.insert("t_uint256".to_string(), vec![]);
    let mut e = engine(
        types,
        vec![hint("A", "block.timestamp-1000", "block.timestamp-998")],
        vec![root("A", ARRAY_T, "05")],
    );
    e.scan_contract(&vec![], 1001).unwrap();
    let reg = &e.state.context.registry;
    assert_eq!(reg.iterish_from_to.get(&reg.roots[0].id), Some(&(1, 3)));
    let paths: Vec<String> = reg.get_output_flatten().into_iter().map(|p| p.0).collect();
    assert_eq!(paths, vec!["A.1".to_string(), "A.2".to_string()]);
}

#[test]
fn recorded_bounds_need_no_hint() {
    let mut types = ASTNode::new();
    types.insert(ARRAY_T.to_string(), vec![]);
    types.insert("t_uint256".to_string(), vec![]);
    let mut e = engine(types, vec![], vec![root("A", ARRAY_T, "05")]);
    let id = e.state.context.registry.roots[0].id;
    e.state.context.registry.record_bounds(id, 9, 11).unwrap();
    e.scan_contract(&vec![], 0).unwrap();
    let paths: Vec<String> =
        e.state.context.registry.get_output_flatten().into_iter().map(|p| p.0).collect();
    assert_eq!(paths, vec!["A.9".to_string(), "A.10".to_string()]);
}

#[test]
fn empty_and_inverted_bounds_give_no_elements() {
    for (from, to) in [("0", "0"), ("5", "5"), ("7", "3")] {
        let mut types = ASTNode::new();
        types.insert(ARRAY_T.to_string(), vec![]);
        types.insert("t_uint256".to_string(), vec![]);
        let mut e = engine(types, vec![hint("A", from, to)], vec![root("A", ARRAY_T, "05")]);
        assert_eq!(e.scan_contract(&vec![], 0).unwrap(), 1);
        assert!(e.state.context.registry.get_output_flatten().is_empty());
        assert_eq!(e.state.context.registry.visited.nodes.len(), 1);
    }
}

#[test]
fn roots_are_matched_to_types_by_name() {
    let mut types = ASTNode::new();
    types.insert("t_struct(GlobalState)12_storage".to_string(), vec![]);
    types.insert("t_uint256".to_string(), vec![]);
    types.insert("t_struct(Member)7_storage".to_string(), vec![]);
    let e = Extractor::new(Context { registry: Registry::new(types, vec![]) });
    let index = vec![
        ("Member".to_string(), word("02")),
        ("GlobalState".to_string(), word("01")),
        ("Absent".to_string(), word("03")),
        ("t_struct".to_string(), word("04")),
    ];
    let roots = e.roots_from_types(&index);
    let found: Vec<(&str, &str, &str)> =
        roots.iter().map(|r| (r.name.as_str(), r.type_str.as_str(), r.slot.as_str())).collect();
    let (one, two, four) = (word("01"), word("02"), word("04"));
    assert_eq!(
        found,
        vec![
            ("GlobalState", "t_struct(GlobalState)12_storage", one.as_str()),
            ("t_struct", "t_struct(GlobalState)12_storage", four.as_str()),
            ("Member", "t_struct(Member)7_storage", two.as_str()),
            ("t_struct", "t_struct(Member)7_storage", four.as_str()),
        ]
    );
}

#[test]
fn a_primitive_without_descriptor_is_not_emitted() {
    let mut types = ASTNode::new();
    types.insert("t_uint256".to_string(), vec![]);
    let mut reg = Registry::new(types, vec![]);
    let node = extractor::executable::Executable::new(
        5,
        "x".to_string(),
        "t_bool".to_string(),
        None,
        extractor::type_kind::TypeKind::Primitive,
        "t_bool".to_string(),
        0,
        "0".to_string(),
        None,
        None,
    );
    reg.bulk_set_absolute_slots(&vec![(5, word("01"))]).unwrap();
    reg.bulk_enqueue_execution(0, vec![node]);
    let failure = Executor::plan(0, &reg, 0).unwrap_err();
    assert_eq!(failure.error, ExtractError::Descriptor(DescriptorError::MissingType));
    assert_eq!(failure.path, "x");
    let failure = Executor::bulk_exec_and_reload(0, &mut reg, 0).unwrap_err();
    assert_eq!(failure.error, ExtractError::Descriptor(DescriptorError::MissingType));
    assert!(reg.output_flatten.nodes.is_empty());
}

#[test]
fn a_failing_step_takes_back_what_it_recorded() {
    // Step 0 goes well; step 1 reads `b` and then fails on the bounds of `arr`.
    let mut types = ASTNode::new();
    types.insert(ROOT_T.to_string(), vec![member("b", "0", "t_uint256"), member("arr", "1", ARRAY_T)]);
    types.insert(ARRAY_T.to_string(), vec![]);
    types.insert("t_uint256".to_string(), vec![]);
    let mut e = engine(types, vec![hint("Root.arr", "0", "6/Root.b")], vec![root("Root", ROOT_T, "00")]);
    let storage = vec![(word("00"), word("00")), (word("01"), word("05"))];
    let failure = e.scan_contract(&storage, 0).unwrap_err();
    assert_eq!(failure.error, ExtractError::Evaluation(EvaluationError::DivideByZero));
    assert_eq!(failure.step, 1);
    assert_eq!(failure.path, "Root.arr");
    let reg = &e.state.context.registry;
    assert_eq!(e.state.step, 1);
    // Only what step 0 wrote is there: the root with its slot and value.
    let root_id = reg.roots[0].id;
    assert_eq!(reg.visited.nodes.len(), 1);
    assert_eq!(reg.visited.nodes[0].id, root_id);
    assert_eq!(reg.visited.index.len(), 1);
    assert_eq!(reg.values.map.len(), 1);
    assert_eq!(reg.values.get(root_id), Some(&word("00")));
    assert_eq!(reg.absolute_slots.map.len(), 1);
    assert_eq!(reg.queue_per_step[1].len(), 2);
    assert_eq!(reg.queue_per_step.len(), 2);

    // The same step with another value for `b` goes through.
    let batch = e.batch().unwrap();
    assert_eq!(batch.len(), 2);
    let values = vec![(batch[0].0, word("03")), (batch[1].0, word("05"))];
    assert_eq!(e.next_action(), Ok(true));
    e.finish_step(&values, 0).unwrap();
    assert_eq!(e.state.step, 2);
    let arr = e.state.context.registry.queue_per_step[1][1].id;
    assert_eq!(e.state.context.registry.iterish_from_to.get(&arr), Some(&(0, 2)));
}

#[test]
fn the_run_step_by_step() {
    let mut types = ASTNode::new();
    types.insert(S_T.to_string(), vec![member("a", "0", "t_uint256"), member("b", "1", "t_uint256")]);
    types.insert("t_uint256".to_string(), vec![]);
    let mut e = engine(types, vec![], vec![root("S", S_T, "00")]);
    let mut reads = 0;
    loop {
        match e.next_action() {
            Ok(true) => {}
            Ok(false) => break,
            Err(f) => panic!("{:?}", f),
        }
        let batch = e.batch().unwrap();
        let values: Vec<(u64, String)> = batch.iter().map(|(id, slot)| (*id, slot.clone())).collect();
        reads += batch.len();
        e.finish_step(&values, 0).unwrap();
    }
    assert_eq!(e.state.step, 2);
    assert_eq!(reads, 3);
    assert_eq!(
        e.state.context.registry.get_output_flatten(),
        vec![("S.a".to_string(), word("00")), ("S.b".to_string(), word("01"))]
    );
    // With the budget used up and nodes queued the next action is a failure.
    let mut types = ASTNode::new();
    types.insert(S_T.to_string(), vec![member("a", "0", "t_uint256")]);
    types.insert("t_uint256".to_string(), vec![]);
    let mut e = engine(types, vec![], vec![root("S", S_T, "00")]);
    e.max_steps = 0;
    let failure = e.next_action().unwrap_err();
    assert_eq!(failure.error, ExtractError::Invariant(InvariantError::StepLimitExceeded));
    assert_eq!(failure.step, 0);
    e.max_steps = 1;
    assert_eq!(e.next_action(), Ok(true));
    // A response that does not fit the batch fails the step and changes nothing.
    let failure = e.finish_step(&vec![], 0).unwrap_err();
    assert_eq!(failure.error, ExtractError::Read(extractor::error::ReadError::Malformed));
    assert_eq!(e.state.step, 0);
    assert!(e.state.context.registry.visited.nodes.is_empty());
}

#[test]
fn a_collection_put_off_adds_steps_beyond_its_depth() {
    // `Root.a.b.c` lies three levels below its root, so `B` is put off at steps 0,
    // 1 and 2 and resolves at step 3. Its elements lie four levels deep below it.
    let mut types = ASTNode::new();
    types.insert(ROOT_T.to_string(), vec![member("a", "0", "t_struct(A)2_storage")]);
    types.insert("t_struct(A)2_storage".to_string(), vec![member("b", "0", "t_struct(B)3_storage")]);
    types.insert("t_struct(B)3_storage".to_string(), vec![member("c", "0", "t_uint256")]);
    let deep = "t_array(t_struct(X)4_storage)dyn_storage";
    types.insert(deep.to_string(), vec![]);
    types.insert("t_struct(X)4_storage".to_string(), vec![member("x", "0", "t_struct(Y)5_storage")]);
    types.insert("t_struct(Y)5_storage".to_string(), vec![member("y", "0", "t_struct(Z)6_storage")]);
    types.insert("t_struct(Z)6_storage".to_string(), vec![member("z", "0", "t_uint256")]);
    types.insert("t_uint256".to_string(), vec![]);
    let mut e = engine(
        types,
        vec![hint("B", "0", "Root.a.b.c")],
        vec![root("Root", ROOT_T, "00"), root("B", deep, "09")],
    );
    let storage = vec![(word("00"), word("01"))];
    let stopped = e.scan_contract(&storage, 0).unwrap();
    let reg = &e.state.context.registry;
    let deepest = reg.visited.nodes.iter().map(|n| n.ancestors().len() + 1).max().unwrap();
    let put_off = (0..stopped).filter(|s| reg.queue_per_step[*s + 1].iter().any(|n| n.name == "B" && n.mapping_key.is_none())).count();
    assert_eq!(deepest, 5);
    assert_eq!(put_off, 3);
    assert_eq!(stopped, 8);
    // One step for each level of depth and one for each step that put a node off.
    assert!(stopped <= deepest + put_off);
    let paths: Vec<String> = reg.get_output_flatten().into_iter().map(|p| p.0).collect();
    assert_eq!(paths, vec!["Root.a.b.c".to_string(), "B.0.x.y.z".to_string()]);
}
