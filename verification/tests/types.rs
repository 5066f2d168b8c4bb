use extractor::ast_node::{ASTNode, MemberDescriptor, ParsedASTType};
use extractor::error::DescriptorError;
use extractor::type_kind::TypeKind;

fn parsed(envelope: Option<TypeKind>, key: Option<&str>, value: &str) -> ParsedASTType {
    ParsedASTType { envelope, key_type: key.map(|k| k.to_string()), value_type: value.to_string() }
}

#[test]
fn iterish_kinds() {
    assert!(TypeKind::Mapping.is_iterish());
    assert!(TypeKind::Array.is_iterish());
    assert!(!TypeKind::NaiveStruct.is_iterish());
    assert!(!TypeKind::Primitive.is_iterish());
}

#[test]
fn array_type_names() {
    assert_eq!(
        ASTNode::parse_type_str("t_array(t_uint256)dyn_storage"),
        parsed(Some(TypeKind::Array), None, "t_uint256")
    );
    assert_eq!(
        ASTNode::parse_type_str("t_array(t_struct(Foo)12_storage)dyn_storage"),
        parsed(Some(TypeKind::Array), None, "t_struct(Foo)12_storage")
    );
    assert_eq!(ASTNode::parse_type_str("t_array()"), parsed(Some(TypeKind::Array), None, ""));
    assert_eq!(ASTNode::type_kind("t_array(t_uint256)dyn_storage"), TypeKind::Array);
}

#[test]
fn mapping_type_names() {
    assert_eq!(
        ASTNode::parse_type_str("t_mapping(t_address,t_uint256)"),
        parsed(Some(TypeKind::Mapping), Some("t_address"), "t_uint256")
    );
    assert_eq!(
        ASTNode::parse_type_str("t_mapping(t_contract(IERC20)12,t_struct(Foo)3_storage)"),
        parsed(Some(TypeKind::Mapping), Some("t_contract(IERC20)12"), "t_struct(Foo)3_storage")
    );
    assert_eq!(
        ASTNode::parse_type_str("t_mapping(t_address,t_mapping(t_uint256,t_bool))"),
        parsed(Some(TypeKind::Mapping), Some("t_address"), "t_mapping(t_uint256,t_bool)")
    );
    assert_eq!(ASTNode::type_kind("t_mapping(t_address,t_uint256)"), TypeKind::Mapping);
}

#[test]
fn other_type_names_are_taken_whole() {
    assert_eq!(ASTNode::parse_type_str("t_uint256"), parsed(None, None, "t_uint256"));
    assert_eq!(ASTNode::parse_type_str(""), parsed(None, None, ""));
    assert_eq!(
        ASTNode::parse_type_str("t_struct(Root)1_storage"),
        parsed(None, None, "t_struct(Root)1_storage")
    );
    // An envelope that never closes, or a mapping without a comma, is no envelope.
    assert_eq!(ASTNode::parse_type_str("t_array(t_uint256"), parsed(None, None, "t_array(t_uint256"));
    assert_eq!(
        ASTNode::parse_type_str("t_mapping(t_address)"),
        parsed(None, None, "t_mapping(t_address)")
    );
    assert_eq!(ASTNode::type_kind("t_array(t_uint256"), TypeKind::Primitive);
}

#[test]
fn struct_and_primitive_kinds() {
    assert_eq!(ASTNode::type_kind("t_struct(Root)1_storage"), TypeKind::NaiveStruct);
    assert_eq!(ASTNode::type_kind("t_struct(Root"), TypeKind::Primitive);
    assert_eq!(ASTNode::type_kind("t_struct"), TypeKind::Primitive);
    assert_eq!(ASTNode::type_kind("t_uint256"), TypeKind::Primitive);
    assert_eq!(ASTNode::type_kind("t_address"), TypeKind::Primitive);
}

fn directory() -> ASTNode {
    let mut types = ASTNode::new();
    types.insert(
        "t_struct(S)2_storage".to_string(),
        vec![
            MemberDescriptor::new("a".to_string(), "0".to_string(), 0, "t_uint128".to_string()),
            MemberDescriptor::new("b".to_string(), "0".to_string(), 16, "t_uint128".to_string()),
        ],
    );
    types.insert("t_uint128".to_string(), vec![]);
    types.insert("t_mapping(t_address,t_uint128)".to_string(), vec![]);
    types.insert(
        "t_bool".to_string(),
        vec![MemberDescriptor::new("x".to_string(), "0".to_string(), 0, "t_bool".to_string())],
    );
    types.insert("t_uint128".to_string(), vec![MemberDescriptor::new(
        "late".to_string(),
        "0".to_string(),
        0,
        "t_bool".to_string(),
    )]);
    types
}

#[test]
fn describe_gives_kind_parts_and_members() {
    let types = directory();
    let s = types.describe("t_struct(S)2_storage").unwrap();
    assert_eq!(s.kind, TypeKind::NaiveStruct);
    assert_eq!(s.key_type, None);
    assert_eq!(s.value_type, None);
    assert_eq!(s.members.len(), 2);
    assert_eq!(s.members[0].label, "a");
    assert_eq!(s.members[1].label, "b");
    assert_eq!(s.members[1].offset, 16);
    assert_eq!(s.members[1].slot, "0");

    let m = types.describe("t_mapping(t_address,t_uint128)").unwrap();
    assert_eq!(m.kind, TypeKind::Mapping);
    assert_eq!(m.key_type, Some("t_address".to_string()));
    assert_eq!(m.value_type, Some("t_uint128".to_string()));
    assert!(m.members.is_empty());

    // The first description of a name is the one that counts.
    let p = types.describe("t_uint128").unwrap();
    assert_eq!(p.kind, TypeKind::Primitive);
    assert!(p.members.is_empty());
    assert_eq!(types.get_node("t_uint128").map(|m| m.len()), Some(0));
    assert_eq!(types.get_node("t_struct(S)2_storage").map(|m| m.len()), Some(2));
    assert!(types.get_node("t_missing").is_none());
}

#[test]
fn describe_reports_directory_faults() {
    let types = directory();
    assert_eq!(types.describe("t_uint256"), Err(DescriptorError::MissingType));
    assert_eq!(types.describe("t_bool"), Err(DescriptorError::UnsupportedEnvelope));
}
