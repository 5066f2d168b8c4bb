use extractor::ast_node::{ASTNode, MemberDescriptor};
use extractor::config_util::ConfigUtil;
use extractor::context::Context;
use extractor::error::{ConfigError, EvaluationError, ExtractError};
use extractor::executable::Executable;
use extractor::expression::{ExpressionNode, Func, Op, Segment};
use extractor::extractor::{BaseSlot, Extractor};
use extractor::perf_expression_evaluator::PerfExpressionEvaluator;
use extractor::registry::{Constraint, Registry};

fn name(parts: &[(&str, bool)]) -> ExpressionNode {
    ExpressionNode::Variable(
        parts.iter().map(|(p, i)| Segment { path: p.to_string(), indexed: *i }).collect(),
    )
}

fn op(op: Op, l: ExpressionNode, r: ExpressionNode) -> ExpressionNode {
    ExpressionNode::Operator(op, Box::new(l), Box::new(r))
}

fn parse(text: &str) -> Result<ExpressionNode, ConfigError> {
    PerfExpressionEvaluator::parse_expression(text)
}

#[test]
fn names_numerals_and_the_clock() {
    assert_eq!(parse("userCount"), Ok(name(&[("userCount", false)])));
    assert_eq!(parse("a.b[i].c_$9"), Ok(name(&[("a", false), ("b", true), ("c_$9", false)])));
    assert_eq!(parse("x[i]"), Ok(name(&[("x", true)])));
    assert_eq!(parse("0"), Ok(ExpressionNode::Literal(0)));
    assert_eq!(parse("42"), Ok(ExpressionNode::Literal(42)));
    assert_eq!(parse("18446744073709551615"), Ok(ExpressionNode::Literal(u64::MAX)));
    assert_eq!(parse("block.timestamp"), Ok(ExpressionNode::Timestamp));
    // Not numerals: leading zeros, more than 64 bits, a mark, a second part.
    assert_eq!(parse("007"), Ok(name(&[("007", false)])));
    assert_eq!(parse("18446744073709551616"), Ok(name(&[("18446744073709551616", false)])));
    assert_eq!(parse("7[i]"), Ok(name(&[("7", true)])));
    assert_eq!(parse("1.2"), Ok(name(&[("1", false), ("2", false)])));
    // Not the clock.
    assert_eq!(parse("block.timestamp.x"), Ok(name(&[("block", false), ("timestamp", false), ("x", false)])));
    assert_eq!(parse("block[i].timestamp"), Ok(name(&[("block", true), ("timestamp", false)])));
}

#[test]
fn operators_bind_to_the_right() {
    let (a, b, c) = (name(&[("a", false)]), name(&[("b", false)]), name(&[("c", false)]));
    assert_eq!(parse("a+b"), Ok(op(Op::Add, a.clone(), b.clone())));
    assert_eq!(parse("a-b-c"), Ok(op(Op::Sub, a.clone(), op(Op::Sub, b.clone(), c.clone()))));
    assert_eq!(parse("a*b+c"), Ok(op(Op::Mul, a.clone(), op(Op::Add, b.clone(), c.clone()))));
    assert_eq!(
        parse("(a*b)+c"),
        Ok(op(Op::Add, ExpressionNode::Group(Box::new(op(Op::Mul, a.clone(), b.clone()))), c.clone()))
    );
    assert_eq!(parse("a/b%c"), Ok(op(Op::Div, a.clone(), op(Op::Rem, b.clone(), c.clone()))));
    assert_eq!(parse("((a))"), Ok(ExpressionNode::Group(Box::new(ExpressionNode::Group(Box::new(a.clone()))))));
}

#[test]
fn function_calls() {
    let a = name(&[("a", true), ("b", false)]);
    assert_eq!(parse("head(a[i].b)"), Ok(ExpressionNode::FunctionCall(Func::Head, Box::new(a.clone()))));
    assert_eq!(parse("tail(a[i].b)"), Ok(ExpressionNode::FunctionCall(Func::Tail, Box::new(a.clone()))));
    assert_eq!(parse("createdAt(a[i].b)"), Ok(ExpressionNode::FunctionCall(Func::CreatedAt, Box::new(a.clone()))));
    assert_eq!(parse("updatedAt(a[i].b)"), Ok(ExpressionNode::FunctionCall(Func::UpdatedAt, Box::new(a.clone()))));
    assert_eq!(
        parse("tail(x)-head(x)"),
        Ok(op(
            Op::Sub,
            ExpressionNode::FunctionCall(Func::Tail, Box::new(name(&[("x", false)]))),
            ExpressionNode::FunctionCall(Func::Head, Box::new(name(&[("x", false)]))),
        ))
    );
    // A function name without brackets is a name like any other.
    assert_eq!(parse("head"), Ok(name(&[("head", false)])));
    assert_eq!(parse("head.tail"), Ok(name(&[("head", false), ("tail", false)])));
}

#[test]
fn texts_outside_the_grammar() {
    for text in [
        "", "a+", "+a", "a++b", "(a", "a)", "()", "a b", " a", "a.", ".a", "a..b", "a[i", "a[j]",
        "a[i][i]", "foo(a)", "head()", "head(a", "heada)", "block.timestamp(a)", "a,b", "a=b",
        "é", "a.b[i]c", "head (a)",
    ] {
        assert_eq!(parse(text), Err(ConfigError::MalformedHint), "{:?}", text);
    }
    assert_eq!(ConfigUtil::parse_config("a+"), Err(ConfigError::MalformedHint));
    assert_eq!(ConfigUtil::parse_config("a+b"), parse("a+b"));
}

fn word(last: &str) -> String {
    format!("{}{}", "0".repeat(64 - last.len()), last)
}

fn member(label: &str, slot: &str, type_str: &str) -> MemberDescriptor {
    MemberDescriptor::new(label.to_string(), slot.to_string(), 0, type_str.to_string())
}

fn hint(name: &str, from: &str, to: &str) -> Constraint {
    let class_path = ConfigUtil::to_class_paths(name);
    Constraint {
        cid: ConfigUtil::calc_id(&class_path),
        class_path,
        from: Some(parse(from).unwrap()),
        to: Some(parse(to).unwrap()),
    }
}

fn slot_after(parent: &str, relative: &str) -> String {
    extractor::address::child_slot(parent, relative).unwrap()
}

fn element(parent: &str, key: &str) -> String {
    extractor::address::element_slot(parent, key).unwrap()
}

const USERS_T: &str = "t_array(t_struct(U)5_storage)dyn_storage";
const U_T: &str = "t_struct(U)5_storage";
const ITEMS_T: &str = "t_array(t_uint256)dyn_storage";

/// `users` is an array of structs, each with a `count` and an array `items` that has
/// `count` elements. Also two primitive roots, `six` and `big`.
fn run() -> Registry {
    let mut types = ASTNode::new();
    types.insert(USERS_T.to_string(), vec![]);
    types.insert(U_T.to_string(), vec![member("count", "0", "t_uint256"), member("items", "1", ITEMS_T)]);
    types.insert(ITEMS_T.to_string(), vec![]);
    types.insert("t_uint256".to_string(), vec![]);
    let hints = vec![hint("users", "0", "2"), hint("users[i].items", "0", "users[i].count")];
    let mut e = Extractor::new(Context { registry: Registry::new(types, hints) });
    let roots = vec![
        BaseSlot { name: "users".to_string(), type_str: USERS_T.to_string(), slot: word("01") },
        BaseSlot { name: "six".to_string(), type_str: "t_uint256".to_string(), slot: word("02") },
        BaseSlot { name: "big".to_string(), type_str: "t_uint256".to_string(), slot: word("03") },
    ];
    e.init_members_from_compiler(&roots).unwrap();
    let user0 = element(&word("01"), "0");
    let user1 = element(&word("01"), "1");
    let items1 = slot_after(&user1, "1");
    let storage = vec![
        (word("01"), word("02")),
        (word("02"), word("06")),
        (word("03"), format!("{}{}", "0".repeat(46), "01fffffffffffffffe")),
        (user0.clone(), word("01")),
        (user1.clone(), word("02")),
        (element(&items1, "1"), word("63")),
    ];
    e.scan_contract(&storage, 1000).unwrap();
    e.state.context.registry
}

#[test]
fn marks_bind_to_the_keys_of_the_evaluating_node() {
    let reg = run();
    let paths: Vec<(String, String)> = reg.get_output_flatten();
    assert_eq!(
        paths,
        vec![
            ("six".to_string(), word("06")),
            ("big".to_string(), format!("{}{}", "0".repeat(46), "01fffffffffffffffe")),
            ("users.0.count".to_string(), word("01")),
            ("users.1.count".to_string(), word("02")),
            ("users.0.items.0".to_string(), word("00")),
            ("users.1.items.0".to_string(), word("00")),
            ("users.1.items.1".to_string(), word("63")),
        ]
    );
}

fn node(reg: &Registry, path: &str) -> Executable {
    reg.visited.nodes.iter().find(|n| n.fullname() == path).unwrap().clone()
}

fn eval(reg: &Registry, text: &str, at: &Executable) -> Result<u64, ExtractError> {
    PerfExpressionEvaluator::eval(text, at, reg, 1000)
}

#[test]
fn arithmetic_is_modulo_two_to_the_64() {
    let reg = run();
    let at = node(&reg, "six");
    assert_eq!(eval(&reg, "1+2", &at), Ok(3));
    assert_eq!(eval(&reg, "1-2-3", &at), Ok(2));
    assert_eq!(eval(&reg, "2*3+1", &at), Ok(8));
    assert_eq!(eval(&reg, "(2*3)+1", &at), Ok(7));
    assert_eq!(eval(&reg, "7/2", &at), Ok(3));
    assert_eq!(eval(&reg, "7%4", &at), Ok(3));
    assert_eq!(eval(&reg, "0-1", &at), Ok(u64::MAX));
    assert_eq!(eval(&reg, "18446744073709551615+1", &at), Ok(0));
    assert_eq!(eval(&reg, "18446744073709551615*2", &at), Ok(u64::MAX - 1));
    assert_eq!(eval(&reg, "4294967296*4294967296", &at), Ok(0));
    assert_eq!(eval(&reg, "six*six", &at), Ok(36));
    assert_eq!(eval(&reg, "block.timestamp-six", &at), Ok(994));
    // A word is read modulo 2^64: 0x01_ffff_ffff_ffff_fffe is 2^64 - 2.
    assert_eq!(eval(&reg, "big", &at), Ok(u64::MAX - 1));
    assert_eq!(eval(&reg, "big+3", &at), Ok(1));
}

#[test]
fn division_by_zero() {
    let reg = run();
    let at = node(&reg, "six");
    let fault = Err(ExtractError::Evaluation(EvaluationError::DivideByZero));
    assert_eq!(eval(&reg, "six/0", &at), fault);
    assert_eq!(eval(&reg, "six%0", &at), fault);
    assert_eq!(eval(&reg, "1/(six-6)", &at), fault);
    assert_eq!(eval(&reg, "0/six", &at), Ok(0));
    // The left operand is evaluated first.
    assert_eq!(eval(&reg, "(1/0)+nowhere", &at), fault);
    assert_eq!(eval(&reg, "nowhere+(1/0)", &at), Err(ExtractError::Config(ConfigError::UnknownName)));
}

#[test]
fn names_resolve_through_the_visited_nodes() {
    let reg = run();
    let items1 = node(&reg, "users.1.items");
    let item = node(&reg, "users.1.items.1");
    let six = node(&reg, "six");
    assert_eq!(eval(&reg, "users[i].count", &items1), Ok(2));
    assert_eq!(eval(&reg, "users[i].count", &item), Ok(2));
    assert_eq!(eval(&reg, "users[i].items[i]", &item), Ok(0x63));
    assert_eq!(eval(&reg, "users[i].count", &node(&reg, "users.0.items")), Ok(1));
    assert_eq!(eval(&reg, "users", &six), Ok(2));
    // A mark without a key, and a name the schema does not hold.
    assert_eq!(eval(&reg, "users[i].count", &six), Err(ExtractError::Config(ConfigError::UnknownName)));
    assert_eq!(eval(&reg, "users.nothing", &six), Err(ExtractError::Config(ConfigError::UnknownName)));
    assert_eq!(eval(&reg, "007", &six), Err(ExtractError::Config(ConfigError::UnknownName)));
    // A name the schema holds, of which no node is visited.
    assert_eq!(eval(&reg, "users.count", &six), Err(ExtractError::Evaluation(EvaluationError::Unresolved)));
    assert_eq!(eval(&reg, "six+", &six), Err(ExtractError::Config(ConfigError::MalformedHint)));
}

#[test]
fn functions_read_bounds_and_times() {
    let mut reg = run();
    let six = node(&reg, "six");
    let item = node(&reg, "users.1.items.0");
    assert_eq!(eval(&reg, "head(users)", &six), Ok(0));
    assert_eq!(eval(&reg, "tail(users)", &six), Ok(2));
    assert_eq!(eval(&reg, "tail(users[i].items)-head(users[i].items)", &item), Ok(2));
    assert_eq!(eval(&reg, "tail((users))", &six), Ok(2));
    assert_eq!(eval(&reg, "tail(six)", &six), Err(ExtractError::Evaluation(EvaluationError::Unresolved)));
    assert_eq!(eval(&reg, "tail(1+1)", &six), Err(ExtractError::Config(ConfigError::UnknownName)));
    assert_eq!(eval(&reg, "tail(2)", &six), Err(ExtractError::Config(ConfigError::UnknownName)));
    assert_eq!(eval(&reg, "createdAt(six)", &six), Err(ExtractError::Evaluation(EvaluationError::Unresolved)));
    reg.set_node_times(six.id, 1, 2);
    reg.set_node_times(six.id, 11, 22);
    assert_eq!(eval(&reg, "createdAt(six)", &six), Ok(11));
    assert_eq!(eval(&reg, "updatedAt(six)", &six), Ok(22));
    assert_eq!(eval(&reg, "updatedAt(six)-createdAt(six)", &six), Ok(11));

    assert_eq!(ConfigUtil::apply_func(Func::Tail, node(&reg, "users").id, &reg), Ok(2));
    assert_eq!(ConfigUtil::apply_func(Func::Head, six.id, &reg), Err(EvaluationError::Unresolved));
    assert_eq!(ConfigUtil::apply_operator(Op::Sub, 3, 5), Ok(u64::MAX - 1));
    assert_eq!(ConfigUtil::apply_operator(Op::Rem, 3, 0), Err(EvaluationError::DivideByZero));

    let tree = parse("tail(users)*six").unwrap();
    assert_eq!(PerfExpressionEvaluator::evaluate_expression(&tree, &six, &reg, 0), Ok(12));
    assert_eq!(ConfigUtil::eval_parse_tree(&tree, &six, &reg, 0), Ok(12));
    assert_eq!(reg.eval_config(&node(&reg, "users.1.items"), 0), Ok((0, 2)));
    assert_eq!(reg.eval_config(&six, 0), Err(ExtractError::Config(ConfigError::MissingHint)));
}
