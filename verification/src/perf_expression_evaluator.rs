use vstd::prelude::*;
use vstd::string::*;
use crate::address::{word_number, word_value};
use crate::config_util::{part_paths, texts, ConfigUtil};
use crate::error::{ConfigError, EvaluationError, ExtractError};
use crate::executable::{keys_of, Executable, NodeView};
use crate::expression::{part_views, ExpressionNode, Func, Op, PartView, Segment, Tree};
use crate::parser::{parse, parsed};
use crate::registry::{evaluation_fault, fault_of, first_with_path, Registry, RegistryView};

verus! {

/// The number of segments that carry the mark `[i]`.
pub open spec fn marks_in(segs: Seq<PartView>) -> nat
    decreases segs.len(),
{
    if segs.len() == 0 {
        0
    } else {
        marks_in(segs.drop_last()) + if segs.last().indexed {
            1nat
        } else {
            0nat
        }
    }
}

/// The instance path that a name denotes for a node entered under `keys`: each path
/// of the name, and behind each path that carries `[i]` the key that the mark binds
/// to, the first mark to the first key and so on. `None` where a mark has no key.
pub open spec fn instance_path_of(segs: Seq<PartView>, keys: Seq<Seq<char>>) -> Option<
    Seq<Seq<char>>,
>
    decreases segs.len(),
{
    if segs.len() == 0 {
        Some(Seq::<Seq<char>>::empty())
    } else {
        match instance_path_of(segs.drop_last(), keys) {
            None => None,
            Some(head) => {
                let with_path = head.push(segs.last().path);
                if !segs.last().indexed {
                    Some(with_path)
                } else if marks_in(segs.drop_last()) < keys.len() {
                    Some(with_path.push(keys[marks_in(segs.drop_last()) as int]))
                } else {
                    None
                }
            },
        }
    }
}

/// The visited node that a name denotes.
///
/// Fails with `UnknownName` where a mark of the name has no key or the schema does
/// not hold the name, and with `Unresolved` where the schema holds it and no visited
/// node has its instance path yet.
pub open spec fn resolve(reg: RegistryView, segs: Seq<PartView>, keys: Seq<Seq<char>>) -> Result<
    NodeView,
    EvaluationError,
> {
    match instance_path_of(segs, keys) {
        None => Err(EvaluationError::UnknownName),
        Some(path) => {
            let k = first_with_path(reg.visited, path, 0);
            if 0 <= k < reg.visited.len() {
                Ok(reg.visited[k])
            } else if reg.knows(part_paths(segs)) {
                Err(EvaluationError::Unresolved)
            } else {
                Err(EvaluationError::UnknownName)
            }
        },
    }
}

/// The value of the node that a name denotes: the word recorded for it, read as a
/// big-endian number modulo 2^64. `Unresolved` where no word is recorded yet.
pub open spec fn name_value(reg: RegistryView, segs: Seq<PartView>, keys: Seq<Seq<char>>) -> Result<
    u64,
    EvaluationError,
> {
    match resolve(reg, segs, keys) {
        Err(e) => Err(e),
        Ok(n) => if reg.values.contains_key(n.id) {
            Ok(word_number(reg.values[n.id]))
        } else {
            Err(EvaluationError::Unresolved)
        },
    }
}

/// What a function gives for a node: the recorded bounds of a collection for `head`
/// and `tail`, the recorded times of a node for `createdAt` and `updatedAt`.
/// `Unresolved` where nothing is recorded for the node.
pub open spec fn func_value(reg: RegistryView, f: Func, id: u64) -> Result<u64, EvaluationError> {
    match f {
        Func::Head => if reg.bounds.contains_key(id) {
            Ok(reg.bounds[id].0)
        } else {
            Err(EvaluationError::Unresolved)
        },
        Func::Tail => if reg.bounds.contains_key(id) {
            Ok(reg.bounds[id].1)
        } else {
            Err(EvaluationError::Unresolved)
        },
        Func::CreatedAt => if reg.times.contains_key(id) {
            Ok(reg.times[id].0)
        } else {
            Err(EvaluationError::Unresolved)
        },
        Func::UpdatedAt => if reg.times.contains_key(id) {
            Ok(reg.times[id].1)
        } else {
            Err(EvaluationError::Unresolved)
        },
    }
}

/// What a function gives for the node that a name denotes.
pub open spec fn call_value(
    reg: RegistryView,
    f: Func,
    segs: Seq<PartView>,
    keys: Seq<Seq<char>>,
) -> Result<u64, EvaluationError> {
    match resolve(reg, segs, keys) {
        Err(e) => Err(e),
        Ok(n) => func_value(reg, f, n.id),
    }
}

/// The result of an operator on two numbers, in arithmetic modulo 2^64.
pub open spec fn apply(op: Op, a: u64, b: u64) -> Result<u64, EvaluationError> {
    match op {
        Op::Add => Ok(((a + b) % 0x1_0000_0000_0000_0000) as u64),
        Op::Sub => Ok(((a - b) % 0x1_0000_0000_0000_0000) as u64),
        Op::Mul => Ok(((a * b) % 0x1_0000_0000_0000_0000) as u64),
        Op::Div => if b == 0 {
            Err(EvaluationError::DivideByZero)
        } else {
            Ok(a / b)
        },
        Op::Rem => if b == 0 {
            Err(EvaluationError::DivideByZero)
        } else {
            Ok(a % b)
        },
    }
}

/// The name that the argument of a function is, brackets around it set aside.
pub open spec fn named(e: Tree) -> Option<Seq<PartView>>
    decreases e,
{
    match e {
        Tree::Variable(segs) => Some(segs),
        Tree::Group(inner) => named(*inner),
        _ => None,
    }
}

/// The value of a hint expression for a node entered under `keys`, at the given
/// time. Of two operands the left one is evaluated first, and its failure reported.
pub open spec fn eval_spec(
    e: Tree,
    reg: RegistryView,
    keys: Seq<Seq<char>>,
    timestamp: u64,
) -> Result<u64, EvaluationError>
    decreases e,
{
    match e {
        Tree::Variable(segs) => name_value(reg, segs, keys),
        Tree::Timestamp => Ok(timestamp),
        Tree::FunctionCall(f, arg) => match named(*arg) {
            Some(segs) => call_value(reg, f, segs, keys),
            None => Err(EvaluationError::UnknownName),
        },
        Tree::Operator(op, left, right) => match eval_spec(
            *left,
            reg,
            keys,
            timestamp,
        ) {
            Err(e) => Err(e),
            Ok(a) => match eval_spec(*right, reg, keys, timestamp) {
                Err(e) => Err(e),
                Ok(b) => apply(op, a, b),
            },
        },
        Tree::Literal(n) => Ok(n),
        Tree::Group(inner) => eval_spec(*inner, reg, keys, timestamp),
    }
}

/// The instance and class paths of a name.
fn paths_of_name(segs: &Vec<Segment>, keys: &Vec<String>) -> (r: (Option<Vec<String>>, Vec<String>))
    ensures
        match r.0 {
            Some(p) => instance_path_of(part_views(segs@), texts(keys@)) == Some(texts(p@)),
            None => instance_path_of(part_views(segs@), texts(keys@)) is None,
        },
        texts(r.1@) == part_paths(part_views(segs@)),
{
    let mut instance: Vec<String> = Vec::new();
    let mut class: Vec<String> = Vec::new();
    let mut bound = true;
    let mut marks: usize = 0;
    let mut i: usize = 0;
    let ghost parts = part_views(segs@);
    assert(texts(instance@) =~= Seq::<Seq<char>>::empty());
    assert(texts(class@) =~= part_paths(parts.take(0)));
    while i < segs.len()
        invariant
            i <= segs.len(),
            marks <= i,
            parts == part_views(segs@),
            marks == marks_in(parts.take(i as int)),
            bound ==> instance_path_of(parts.take(i as int), texts(keys@)) == Some(
                texts(instance@),
            ),
            !bound ==> instance_path_of(parts.take(i as int), texts(keys@)) is None,
            texts(class@) == part_paths(parts.take(i as int)),
        decreases segs.len() - i,
    {
        let ghost before = texts(instance@);
        let ghost class_before = texts(class@);
        proof {
            assert(parts.take(i + 1).drop_last() =~= parts.take(i as int));
            assert(parts.take(i + 1).last() == segs@[i as int]@);
        }
        class.push(segs[i].path.clone());
        assert(texts(class@) =~= class_before.push(segs@[i as int].path@));
        assert(part_paths(parts.take(i + 1)) =~= part_paths(parts.take(i as int)).push(
            segs@[i as int].path@,
        ));
        if bound {
            instance.push(segs[i].path.clone());
            assert(texts(instance@) =~= before.push(segs@[i as int].path@));
            if segs[i].indexed {
                if marks < keys.len() {
                    let ghost mid = texts(instance@);
                    instance.push(keys[marks].clone());
                    assert(texts(instance@) =~= mid.push(keys@[marks as int]@));
                    assert(texts(keys@)[marks as int] == keys@[marks as int]@);
                } else {
                    bound = false;
                }
            }
        }
        if segs[i].indexed {
            marks += 1;
        }
        i += 1;
    }
    assert(parts.take(i as int) =~= parts);
    if bound {
        (Some(instance), class)
    } else {
        (None, class)
    }
}

/// The position among the visited nodes of the node that a name denotes.
fn resolve_name(segs: &Vec<Segment>, keys: &Vec<String>, registry: &Registry) -> (r: Result<
    usize,
    EvaluationError,
>)
    requires
        registry.wf(),
    ensures
        match r {
            Ok(k) => k < registry@.visited.len() && resolve(
                registry@,
                part_views(segs@),
                texts(keys@),
            ) == Ok::<NodeView, EvaluationError>(registry@.visited[k as int]),
            Err(e) => resolve(registry@, part_views(segs@), texts(keys@)) == Err::<
                NodeView,
                EvaluationError,
            >(e),
        },
{
    let (instance, class) = paths_of_name(segs, keys);
    let path = match instance {
        Some(p) => p,
        None => {
            return Err(EvaluationError::UnknownName);
        },
    };
    match registry.find_by_path(&path) {
        Some(k) => Ok(k),
        None => {
            if registry.knows(&class) {
                Err(EvaluationError::Unresolved)
            } else {
                Err(EvaluationError::UnknownName)
            }
        },
    }
}

/// The name that the argument of a function is.
fn name_of_argument(e: &ExpressionNode) -> (r: Option<&Vec<Segment>>)
    ensures
        match r {
            Some(segs) => named(e@) == Some(part_views(segs@)),
            None => named(e@) is None,
        },
    decreases e,
{
    match e {
        ExpressionNode::Variable(segs) => Some(segs),
        ExpressionNode::Group(inner) => name_of_argument(inner),
        _ => None,
    }
}

/// The evaluator of hint expressions.
#[derive(Clone, Copy, Debug)]
pub struct PerfExpressionEvaluator;

impl PerfExpressionEvaluator {
    /// Evaluates a hint expression for the node `at` against what the registry holds,
    /// with `timestamp` for the clock.
    pub fn evaluate_expression(
        node: &ExpressionNode,
        at: &Executable,
        registry: &Registry,
        timestamp: u64,
    ) -> (r: Result<u64, EvaluationError>)
        requires
            registry.wf(),
        ensures
            r == eval_spec(node@, registry@, keys_of(at@), timestamp),
    {
        let keys = at.keys();
        Self::evaluate_with_keys(node, &keys, registry, timestamp)
    }

    /// Evaluates a hint expression for a node that is entered under `keys`.
    fn evaluate_with_keys(
        node: &ExpressionNode,
        keys: &Vec<String>,
        registry: &Registry,
        timestamp: u64,
    ) -> (r: Result<u64, EvaluationError>)
        requires
            registry.wf(),
        ensures
            r == eval_spec(node@, registry@, texts(keys@), timestamp),
        decreases node,
    {
        broadcast use vstd::std_specs::hash::group_hash_axioms;

        match node {
            ExpressionNode::Variable(segs) => {
                let k = match resolve_name(segs, keys, registry) {
                    Ok(k) => k,
                    Err(e) => {
                        return Err(e);
                    },
                };
                let id = registry.visited.nodes[k].id;
                assert(registry@.visited[k as int].id == id);
                match registry.values.get(id) {
                    Some(word) => match word_value(word.as_str()) {
                        Some(n) => Ok(n),
                        None => Err(EvaluationError::Unresolved),
                    },
                    None => Err(EvaluationError::Unresolved),
                }
            },
            ExpressionNode::Timestamp => Ok(timestamp),
            ExpressionNode::FunctionCall(f, arg) => {
                let segs = match name_of_argument(arg) {
                    Some(segs) => segs,
                    None => {
                        return Err(EvaluationError::UnknownName);
                    },
                };
                let k = match resolve_name(segs, keys, registry) {
                    Ok(k) => k,
                    Err(e) => {
                        return Err(e);
                    },
                };
                let id = registry.visited.nodes[k].id;
                assert(registry@.visited[k as int].id == id);
                ConfigUtil::apply_func(*f, id, registry)
            },
            ExpressionNode::Operator(op, left, right) => {
                let a = match Self::evaluate_with_keys(left, keys, registry, timestamp) {
                    Ok(a) => a,
                    Err(e) => {
                        return Err(e);
                    },
                };
                let b = match Self::evaluate_with_keys(right, keys, registry, timestamp) {
                    Ok(b) => b,
                    Err(e) => {
                        return Err(e);
                    },
                };
                ConfigUtil::apply_operator(*op, a, b)
            },
            ExpressionNode::Literal(n) => Ok(*n),
            ExpressionNode::Group(inner) => Self::evaluate_with_keys(
                inner,
                keys,
                registry,
                timestamp,
            ),
        }
    }

    /// Reads a hint expression and evaluates it for the node `at`.
    ///
    /// Fails with `MalformedHint` for a text that is no expression of the grammar,
    /// and with what the evaluation of the expression fails with.
    pub fn eval(expression: &str, at: &Executable, registry: &Registry, timestamp: u64) -> (r:
        Result<u64, ExtractError>)
        requires
            registry.wf(),
        ensures
            r == (match parsed(expression@) {
                None => Err::<u64, ExtractError>(ExtractError::Config(ConfigError::MalformedHint)),
                Some(t) => match eval_spec(t, registry@, keys_of(at@), timestamp) {
                    Ok(n) => Ok(n),
                    Err(e) => Err(evaluation_fault(e)),
                },
            }),
    {
        let node = match parse(expression) {
            Ok(node) => node,
            Err(e) => {
                return Err(ExtractError::Config(e));
            },
        };
        match Self::evaluate_expression(&node, at, registry, timestamp) {
            Ok(n) => Ok(n),
            Err(e) => Err(fault_of(e)),
        }
    }

    /// Reads a hint expression into a tree.
    pub fn parse_expression(expression: &str) -> (r: Result<ExpressionNode, ConfigError>)
        ensures
            match r {
                Ok(e) => parsed(expression@) == Some(e@),
                Err(err) => err == ConfigError::MalformedHint && parsed(expression@) is None,
            },
    {
        parse(expression)
    }
}

} // verus!
