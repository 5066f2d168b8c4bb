use extractor::ast_node::{ASTNode, MemberDescriptor};
use extractor::config_util::{ConfigUtil, ParseMode};
use extractor::error::{DescriptorError, InvariantError};
use extractor::executable::{derive_id, join, Executable, PathStyle};
use extractor::registry::Registry;
use extractor::type_kind::TypeKind;

const USERS_T: &str = "t_array(t_struct(U)5_storage)dyn_storage";
const U_T: &str = "t_struct(U)5_storage";
const ROOT_T: &str = "t_struct(Root)1_storage";

fn word(last: &str) -> String {
    format!("{}{}", "0".repeat(64 - last.len()), last)
}

fn registry() -> Registry {
    let mut types = ASTNode::new();
    types.insert(
        ROOT_T.to_string(),
        vec![
            MemberDescriptor::new("owner".to_string(), "0".to_string(), 0, "t_address".to_string()),
            MemberDescriptor::new("users".to_string(), "3".to_string(), 0, USERS_T.to_string()),
        ],
    );
    types.insert(USERS_T.to_string(), vec![]);
    types.insert(
        U_T.to_string(),
        vec![MemberDescriptor::new("count".to_string(), "1".to_string(), 4, "t_uint256".to_string())],
    );
    types.insert("t_address".to_string(), vec![]);
    types.insert("t_uint256".to_string(), vec![]);
    Registry::new(types, vec![])
}

fn root() -> Executable {
    Executable::new(
        derive_id(0, "Root"),
        "Root".to_string(),
        ROOT_T.to_string(),
        None,
        TypeKind::NaiveStruct,
        ROOT_T.to_string(),
        0,
        "0".to_string(),
        None,
        None,
    )
}

/// Root -> users -> users[7] -> count
fn chain(reg: &Registry) -> (Executable, Executable, Executable, Executable) {
    let root = root();
    let users = root.children(reg, None).unwrap().remove(1);
    let element = users.children(reg, Some(vec!["7".to_string()])).unwrap().remove(0);
    let count = element.children(reg, None).unwrap().remove(0);
    (root, users, element, count)
}

fn strings(v: &[&str]) -> Vec<String> {
    v.iter().map(|s| s.to_string()).collect()
}

#[test]
fn identities_are_derived_from_parent_and_label() {
    let mut preimage = 0u64.to_le_bytes().to_vec();
    preimage.extend_from_slice(b"Root");
    let digest = ethers::utils::keccak256(&preimage);
    let mut head = [0u8; 8];
    head.copy_from_slice(&digest[..8]);
    assert_eq!(derive_id(0, "Root"), u64::from_le_bytes(head));
    assert_ne!(derive_id(0, "Root"), derive_id(1, "Root"));
    assert_ne!(derive_id(0, "Root"), derive_id(0, "Roof"));

    let reg = registry();
    let (root, users, element, count) = chain(&reg);
    assert_eq!(users.id, derive_id(root.id, "users"));
    assert_eq!(element.id, derive_id(users.id, "7"));
    assert_eq!(count.id, derive_id(element.id, "count"));
}

#[test]
fn children_of_a_struct_are_its_members_in_order() {
    let reg = registry();
    let root = root();
    let children = root.children(&reg, None).unwrap();
    assert_eq!(children.len(), 2);
    assert_eq!(children[0].name, "owner");
    assert_eq!(children[0].type_kind, TypeKind::Primitive);
    assert_eq!(children[0].fulltype, "t_address");
    assert_eq!(children[1].name, "users");
    assert_eq!(children[1].type_kind, TypeKind::Array);
    assert_eq!(children[1].value_type, U_T);
    assert_eq!(children[1].relative_slot, "3");
    assert_eq!(children[1].mapping_key, None);
    assert_eq!(children[1].belongs_to.as_deref(), Some(&root));
    // Indices mean nothing to a struct.
    assert_eq!(root.children(&reg, Some(strings(&["0"]))).unwrap(), children);
}

#[test]
fn children_of_a_collection_are_one_element_for_each_key() {
    let reg = registry();
    let (_, users, _, _) = chain(&reg);
    let elements = users.children(&reg, Some(strings(&["0", "1", "5"]))).unwrap();
    assert_eq!(elements.len(), 3);
    for (element, key) in elements.iter().zip(["0", "1", "5"]) {
        assert_eq!(element.mapping_key.as_deref(), Some(key));
        assert_eq!(element.fulltype, U_T);
        assert_eq!(element.type_kind, TypeKind::NaiveStruct);
        assert_eq!(element.relative_slot, "0");
        assert_eq!(element.offset, 0);
        assert_eq!(element.name, "users");
        assert_eq!(element.key_type, None);
        assert_eq!(element.id, derive_id(users.id, key));
    }
    assert!(users.children(&reg, None).unwrap().is_empty());
    assert!(users.children(&reg, Some(vec![])).unwrap().is_empty());
}

#[test]
fn a_primitive_has_no_children() {
    let reg = registry();
    let (_, _, _, count) = chain(&reg);
    assert!(count.children(&reg, None).unwrap().is_empty());
    assert!(count.children(&reg, Some(strings(&["0"]))).unwrap().is_empty());
}

#[test]
fn children_fail_without_a_descriptor() {
    let reg = Registry::new(ASTNode::new(), vec![]);
    assert_eq!(root().children(&reg, None), Err(DescriptorError::MissingType));
    // A node of any kind fails where its own type is not described.
    let full = registry();
    let (_, users, _, count) = chain(&full);
    assert_eq!(count.children(&reg, None), Err(DescriptorError::MissingType));
    assert_eq!(count.children(&reg, Some(strings(&["0"]))), Err(DescriptorError::MissingType));
    assert_eq!(users.children(&reg, None), Err(DescriptorError::MissingType));
    assert_eq!(users.children(&reg, Some(vec![])), Err(DescriptorError::MissingType));
    // So does a node whose type has members declared that it cannot have.
    let mut odd = ASTNode::new();
    odd.insert(
        "t_uint256".to_string(),
        vec![MemberDescriptor::new("x".to_string(), "0".to_string(), 0, "t_uint256".to_string())],
    );
    let reg_odd = Registry::new(odd, vec![]);
    assert_eq!(count.children(&reg_odd, None), Err(DescriptorError::UnsupportedEnvelope));
    assert_eq!(reg_odd.types.fault("t_uint256"), Some(DescriptorError::UnsupportedEnvelope));
    assert_eq!(reg_odd.types.fault("t_bool"), Some(DescriptorError::MissingType));
    assert_eq!(full.types.fault("t_uint256"), None);
    let mut types = ASTNode::new();
    types.insert(USERS_T.to_string(), vec![]);
    let reg = Registry::new(types, vec![]);
    let users = Executable::new(
        1,
        "users".to_string(),
        USERS_T.to_string(),
        None,
        TypeKind::Array,
        U_T.to_string(),
        0,
        "0".to_string(),
        None,
        None,
    );
    // The collection is described, the type of its elements is not.
    assert_eq!(users.children(&reg, Some(strings(&["0"]))), Err(DescriptorError::MissingType));
    assert_eq!(users.children(&reg, Some(vec![])), Ok(vec![]));
}

#[test]
fn paths_in_the_three_styles() {
    let reg = registry();
    let (root, users, element, count) = chain(&reg);
    assert_eq!(root.class_paths(), strings(&["Root"]));
    assert_eq!(users.class_paths(), strings(&["Root", "users"]));
    assert_eq!(element.class_paths(), strings(&["Root", "users"]));
    assert_eq!(count.class_paths(), strings(&["Root", "users", "count"]));

    assert_eq!(element.instance_paths(), strings(&["Root", "users", "7"]));
    assert_eq!(count.instance_paths(), strings(&["Root", "users", "7", "count"]));
    assert_eq!(count.paths_in_conf(), strings(&["Root", "users", "[i]", "count"]));
    assert_eq!(count.paths(PathStyle::Instance), count.instance_paths());

    assert_eq!(count.fullname(), "Root.users.7.count");
    assert_eq!(count.fullname_in_conf(), "Root.users.[i].count");
    assert_eq!(root.fullname(), "Root");
    assert_eq!(count.keys(), strings(&["7"]));
    assert!(users.keys().is_empty());
}

#[test]
fn elements_of_one_collection_share_a_class_path() {
    let reg = registry();
    let (_, users, _, _) = chain(&reg);
    let elements = users.children(&reg, Some(strings(&["0", "1"]))).unwrap();
    let a = elements[0].children(&reg, None).unwrap().remove(0);
    let b = elements[1].children(&reg, None).unwrap().remove(0);
    assert_ne!(a.id, b.id);
    assert_ne!(a.instance_paths(), b.instance_paths());
    assert_eq!(a.class_paths(), b.class_paths());
    assert_eq!(a.cid(), b.cid());
}

#[test]
fn ancestors_from_the_root_down() {
    let reg = registry();
    let (root, users, element, count) = chain(&reg);
    assert_eq!(count.ancestors(), vec![root.clone(), users.clone(), element.clone()]);
    assert!(root.ancestors().is_empty());
    assert!(count.same_as(&count.clone()));
    assert!(!count.same_as(&element));
    assert!(users.is_iterish());
    assert!(!element.is_iterish());
}

#[test]
fn constraint_id_is_the_head_of_the_digest() {
    // Keccak-256 of "abc" begins with 4e 03 65 7a.
    assert_eq!(ConfigUtil::calc_id(&strings(&["abc"])), 0x4e03657a);
    assert_eq!(ConfigUtil::calc_id(&strings(&["a", "bc"])), 0x4e03657a);
    assert_eq!(ConfigUtil::calc_id(&strings(&["a", "", "b", "c"])), 0x4e03657a);
    // Keccak-256 of the empty text begins with c5 d2 46 01.
    assert_eq!(ConfigUtil::calc_id(&vec![]), 0xc5d24601);
    assert_ne!(ConfigUtil::calc_id(&strings(&["abd"])), 0x4e03657a);

    let reg = registry();
    let (_, _, _, count) = chain(&reg);
    let digest = ethers::utils::keccak256(b"Rootuserscount");
    assert_eq!(count.cid(), u32::from_be_bytes([digest[0], digest[1], digest[2], digest[3]]));
    assert_eq!(count.cid(), ConfigUtil::calc_id(&ConfigUtil::to_class_paths(&count.fullname_in_conf())));
}

#[test]
fn class_paths_of_configuration_names() {
    assert_eq!(ConfigUtil::to_class_paths("Root.users[i].count"), strings(&["Root", "users", "count"]));
    assert_eq!(ConfigUtil::to_class_paths("plain"), strings(&["plain"]));
    assert_eq!(ConfigUtil::to_class_paths(""), strings(&[""]));
    assert_eq!(ConfigUtil::to_class_paths("a..b."), strings(&["a", "", "b", ""]));
    assert_eq!(ConfigUtil::to_class_paths("x[i][i].[i]y[i"), strings(&["x", "y[i"]));
    assert_eq!(ConfigUtil::to_class_paths("[[i]i]"), strings(&["[i]"]));
}

#[test]
fn grammar_symbols_by_role() {
    assert_eq!(ConfigUtil::check_mode("expr"), Some(ParseMode::Expr));
    assert_eq!(ConfigUtil::check_mode("term"), Some(ParseMode::Term));
    assert_eq!(ConfigUtil::check_mode("factor"), Some(ParseMode::Factor));
    assert_eq!(ConfigUtil::check_mode("base"), Some(ParseMode::Base));
    assert_eq!(ConfigUtil::check_mode("operator"), Some(ParseMode::Operator));
    assert_eq!(ConfigUtil::check_mode("funcs"), Some(ParseMode::Funcs));
    assert_eq!(ConfigUtil::check_mode("vars"), Some(ParseMode::Vars));
    assert_eq!(ConfigUtil::check_mode("fullname"), Some(ParseMode::Fullname));
    assert_eq!(ConfigUtil::check_mode("path"), Some(ParseMode::Path));
    assert_eq!(ConfigUtil::check_mode("index"), Some(ParseMode::Path));
    assert_eq!(ConfigUtil::check_mode("character"), Some(ParseMode::Char));
    assert_eq!(ConfigUtil::check_mode("l_paren"), Some(ParseMode::Char));
    assert_eq!(ConfigUtil::check_mode("r_paren"), Some(ParseMode::Char));
    assert_eq!(ConfigUtil::check_mode("delimiter"), Some(ParseMode::Char));
    assert_eq!(ConfigUtil::check_mode("letter"), None);
    assert_eq!(ConfigUtil::check_mode(""), None);
}

#[test]
fn join_puts_the_separator_between_parts() {
    assert_eq!(join(&strings(&["a", "b", "c"]), "."), "a.b.c");
    assert_eq!(join(&strings(&["a"]), "."), "a");
    assert_eq!(join(&vec![], "."), "");
    assert_eq!(join(&strings(&["", ""]), "--"), "--");
}

#[test]
fn absolute_slots_from_the_parent() {
    let mut reg = registry();
    let (root, users, element, count) = chain(&reg);
    assert_eq!(root.calculate_absolute_slot(&reg), Err(InvariantError::MissingParentSlot));
    assert_eq!(users.calculate_absolute_slot(&reg), Err(InvariantError::MissingParentSlot));

    reg.bulk_set_absolute_slots(&vec![(root.id, word("ff"))]).unwrap();
    // Struct member: parent + relative slot 3.
    let users_slot = users.calculate_absolute_slot(&reg).unwrap();
    assert_eq!(users_slot, word("0102"));

    reg.bulk_set_absolute_slots(&vec![(users.id, users_slot)]).unwrap();
    // Collection element: keccak256(key || parent slot).
    let mut preimage = b"7".to_vec();
    let mut parent = [0u8; 32];
    parent[30] = 1;
    parent[31] = 2;
    preimage.extend_from_slice(&parent);
    let expected = ethers::utils::hex::encode(ethers::utils::keccak256(&preimage));
    let element_slot = element.calculate_absolute_slot(&reg).unwrap();
    assert_eq!(element_slot, expected);

    assert_eq!(
        reg.bulk_set_absolute_slots(&vec![(element.id, "f".repeat(63))]),
        Err(InvariantError::MalformedSlot)
    );
    reg.bulk_set_absolute_slots(&vec![(element.id, "f".repeat(64))]).unwrap();
    // Relative slot 1 wraps around at 2^256.
    assert_eq!(count.calculate_absolute_slot(&reg), Ok(word("00")));

    let mut keyless = element.clone();
    keyless.mapping_key = None;
    assert_eq!(keyless.calculate_absolute_slot(&reg), Err(InvariantError::MissingKey));
    let mut odd = count.clone();
    odd.relative_slot = "one".to_string();
    assert_eq!(odd.calculate_absolute_slot(&reg), Err(InvariantError::MalformedSlot));
    assert!(!users.is_iter_readied(&reg));
    reg.record_bounds(users.id, 0, 0).unwrap();
    assert!(users.is_iter_readied(&reg));
}
