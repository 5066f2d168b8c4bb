use vstd::prelude::*;
use vstd::string::*;
use vstd::utf8::encode_utf8;
use crate::address::{be_value, keccak256, keccak256_digest};
use crate::error::{ConfigError, EvaluationError};
use crate::executable::{keys_of, Executable};
use crate::expression::{
    index_mark, is_name, is_path, is_path_char, name_text, ExpressionNode, Func, Op, PartView,
};
use crate::parser::{parse, parsed};
use crate::perf_expression_evaluator::{
    apply, eval_spec, func_value, PerfExpressionEvaluator,
};
use crate::registry::Registry;
use crate::text::{
    append_bytes, chars_of, replace_all, replaced, same_text, starts_with, string_of_range,
};

verus! {

/// The UTF-8 bytes of the segments of a path, laid end to end.
pub open spec fn path_bytes(path: Seq<Seq<char>>) -> Seq<u8>
    decreases path.len(),
{
    if path.len() == 0 {
        Seq::<u8>::empty()
    } else {
        path_bytes(path.drop_last()) + encode_utf8(path.last())
    }
}

/// The constraint id of a class path: the first four bytes of the Keccak-256 digest
/// of the joined segments, read as a big-endian number.
pub open spec fn constraint_id(path: Seq<Seq<char>>) -> nat {
    be_value(keccak256_digest(path_bytes(path)).subrange(0, 4))
}

/// The views of some strings.
pub open spec fn texts(v: Seq<String>) -> Seq<Seq<char>> {
    v.map_values(|s: String| s@)
}

/// `s` with every `[i]` taken out, reading from the left.
pub open spec fn without_marks(s: Seq<char>) -> Seq<char> {
    replaced(s, seq!['[', 'i', ']'], Seq::<char>::empty())
}

/// The position of the first `.` of `s` at or after `i`, or `s.len()`.
pub open spec fn dot_at(s: Seq<char>, i: int) -> int
    decreases s.len() - i,
{
    if i < 0 || i >= s.len() {
        s.len() as int
    } else if s[i] == '.' {
        i
    } else {
        dot_at(s, i + 1)
    }
}

/// The class path that a name of the hint configuration stands for: the parts
/// between its dots, each without its `[i]` marks.
pub open spec fn class_path_of(s: Seq<char>) -> Seq<Seq<char>>
    decreases s.len(),
{
    let k = dot_at(s, 0);
    if k < 0 || k >= s.len() {
        seq![without_marks(s)]
    } else {
        seq![without_marks(s.take(k))] + class_path_of(s.skip(k + 1))
    }
}

/// The paths of the parts of a name.
pub open spec fn part_paths(parts: Seq<PartView>) -> Seq<Seq<char>> {
    parts.map_values(|p: PartView| p.path)
}

/// A part of a name without its mark is its path.
proof fn lemma_part_without_marks(path: Seq<char>, indexed: bool)
    requires
        forall|i: int| 0 <= i < path.len() ==> is_path_char(#[trigger] path[i]),
    ensures
        without_marks((PartView { path, indexed }).text()) == path,
    decreases path.len(),
{
    let mark = index_mark();
    let text = (PartView { path, indexed }).text();
    let none = Seq::<char>::empty();
    assert(mark =~= seq!['[', 'i', ']']);
    if path.len() == 0 {
        if indexed {
            assert(text =~= mark);
            assert(text.take(3) =~= mark);
            let tail = text.skip(3);
            assert(tail.len() == 0);
            assert(replaced(tail, mark, none) == tail);
            assert(replaced(text, mark, none) == none + replaced(tail, mark, none));
            assert(without_marks(text) =~= path);
        }
    } else {
        assert(is_path_char(path[0]));
        assert(text[0] == path[0]);
        if starts_with(text, mark) {
            assert(text.take(3)[0] == text[0]);
        }
        let rest = path.skip(1);
        assert forall|i: int| 0 <= i < rest.len() implies is_path_char(#[trigger] rest[i]) by {
            assert(rest[i] == path[i + 1]);
        }
        lemma_part_without_marks(rest, indexed);
        assert(text.skip(1) =~= (PartView { path: rest, indexed }).text());
        assert(seq![path[0]] + rest =~= path);
    }
}

/// The first dot of a text that has none before position `k` and one at `k`, or none
/// at all where `k` is its length.
proof fn lemma_dot_at(s: Seq<char>, i: int, k: int)
    requires
        0 <= i <= k <= s.len(),
        forall|m: int| i <= m < k ==> s[m] != '.',
        k < s.len() ==> s[k] == '.',
    ensures
        dot_at(s, i) == k,
    decreases k - i,
{
    if i < k {
        lemma_dot_at(s, i + 1, k);
    }
}

/// The configuration and the expressions agree on names: the class path of a name as
/// it is written is the paths of its parts.
pub proof fn lemma_class_path_of_name(parts: Seq<PartView>)
    requires
        is_name(parts),
    ensures
        class_path_of(name_text(parts)) == part_paths(parts),
    decreases parts.len(),
{
    let first = parts[0];
    let text = first.text();
    let whole = name_text(parts);
    assert(is_path(first.path));
    lemma_part_without_marks(first.path, first.indexed);
    assert forall|m: int| 0 <= m < text.len() implies text[m] != '.' by {
        if m < first.path.len() {
            assert(is_path_char(first.path[m]));
        }
    }
    if parts.len() == 1 {
        lemma_dot_at(whole, 0, whole.len() as int);
        assert(part_paths(parts) =~= seq![first.path]);
    } else {
        let rest = parts.drop_first();
        assert(is_name(rest)) by {
            assert forall|k: int| 0 <= k < rest.len() implies is_path(#[trigger] rest[k].path) by {
                assert(rest[k] == parts[k + 1]);
            }
        }
        lemma_class_path_of_name(rest);
        let k = text.len() as int;
        assert(whole =~= text + (seq!['.'] + name_text(rest)));
        assert forall|m: int| 0 <= m < k implies whole[m] != '.' by {
            assert(whole[m] == text[m]);
        }
        assert(whole[k] == '.');
        lemma_dot_at(whole, 0, k);
        assert(whole.take(k) =~= text);
        assert(whole.skip(k + 1) =~= name_text(rest));
        assert(seq![first.path] + part_paths(rest) =~= part_paths(parts));
    }
}

/// The symbols of the hint grammar by the role they play for the evaluator.
#[derive(Debug, Clone, Copy, PartialEq, Eq, Hash, Structural)]
pub enum ParseMode {
    Expr,
    Term,
    Factor,
    Base,
    Operator,
    Funcs,
    Vars,
    Fullname,
    Path,
    Char,
}

/// The role of a grammar symbol, by its name.
pub open spec fn mode_of(lhs: Seq<char>) -> Option<ParseMode> {
    if lhs == "expr"@ {
        Some(ParseMode::Expr)
    } else if lhs == "base"@ {
        Some(ParseMode::Base)
    } else if lhs == "term"@ {
        Some(ParseMode::Term)
    } else if lhs == "factor"@ {
        Some(ParseMode::Factor)
    } else if lhs == "operator"@ {
        Some(ParseMode::Operator)
    } else if lhs == "funcs"@ {
        Some(ParseMode::Funcs)
    } else if lhs == "vars"@ {
        Some(ParseMode::Vars)
    } else if lhs == "index"@ {
        Some(ParseMode::Path)
    } else if lhs == "fullname"@ {
        Some(ParseMode::Fullname)
    } else if lhs == "path"@ {
        Some(ParseMode::Path)
    } else if lhs == "character"@ || lhs == "l_paren"@ || lhs == "r_paren"@ || lhs
        == "delimiter"@ {
        Some(ParseMode::Char)
    } else {
        None
    }
}

/// Helpers around the hint configuration.
#[derive(Clone, Copy, Debug)]
pub struct ConfigUtil;

/// One part of a configuration name without its `[i]` marks.
fn strip_marks(v: &Vec<char>, from: usize, to: usize) -> (out: String)
    requires
        from <= to <= v.len(),
    ensures
        out@ == without_marks(v@.subrange(from as int, to as int)),
{
    proof {
        reveal_strlit("[i]");
        reveal_strlit("");
        assert("[i]"@ =~= seq!['[', 'i', ']']);
        assert(""@ =~= Seq::<char>::empty());
    }
    let part = string_of_range(v, from, to);
    replace_all(part.as_str(), "[i]", "")
}

impl ConfigUtil {
    /// The constraint id of a class path.
    pub fn calc_id(paths: &Vec<String>) -> (id: u32)
        ensures
            id == constraint_id(texts(paths@)),
    {
        let mut bytes: Vec<u8> = Vec::new();
        let mut i: usize = 0;
        while i < paths.len()
            invariant
                i <= paths.len(),
                bytes@ == path_bytes(texts(paths@).take(i as int)),
            decreases paths.len() - i,
        {
            append_bytes(&mut bytes, paths[i].as_str().as_bytes());
            proof {
                let t = texts(paths@);
                assert(t.take(i + 1).drop_last() =~= t.take(i as int));
                assert(t.take(i + 1).last() == paths@[i as int]@);
            }
            i += 1;
        }
        assert(texts(paths@).take(i as int) =~= texts(paths@));
        let digest = keccak256(bytes.as_slice());
        let d0: u32 = digest[0] as u32;
        let d1: u32 = digest[1] as u32;
        let d2: u32 = digest[2] as u32;
        let d3: u32 = digest[3] as u32;
        proof {
            let head = digest@.subrange(0, 4);
            reveal_with_fuel(be_value, 5);
            assert(head.drop_last() =~= digest@.subrange(0, 3));
            assert(head.drop_last().drop_last() =~= digest@.subrange(0, 2));
            assert(head.drop_last().drop_last().drop_last() =~= digest@.subrange(0, 1));
            assert(head.drop_last().drop_last().drop_last().drop_last() =~= digest@.subrange(
                0,
                0,
            ));
            assert(be_value(head) == ((d0 * 256 + d1) * 256 + d2) * 256 + d3);
        }
        ((d0 * 256 + d1) * 256 + d2) * 256 + d3
    }

    /// The class path of a name as the hint configuration writes it: split at the
    /// dots, each part without its `[i]` marks.
    pub fn to_class_paths(name: &str) -> (paths: Vec<String>)
        ensures
            texts(paths@) == class_path_of(name@),
    {
        let v = chars_of(name);
        let n = v.len();
        let mut paths: Vec<String> = Vec::new();
        let mut start: usize = 0;
        let mut i: usize = 0;
        proof {
            assert(v@.skip(0) =~= v@);
            assert(texts(paths@) + class_path_of(v@) =~= class_path_of(v@));
        }
        while i < n
            invariant
                n == v.len(),
                v@ == name@,
                start <= i <= n,
                dot_at(v@.skip(start as int), 0) == dot_at(v@.skip(start as int), i - start),
                class_path_of(v@) == texts(paths@) + class_path_of(v@.skip(start as int)),
            decreases n - i,
        {
            let ghost rest = v@.skip(start as int);
            if v[i] == '.' {
                let part = strip_marks(&v, start, i);
                proof {
                    assert(rest[i - start] == '.');
                    assert(dot_at(rest, 0) == i - start);
                    assert(rest.take(i - start) =~= v@.subrange(start as int, i as int));
                    assert(rest.skip(i - start + 1) =~= v@.skip(i + 1));
                    let t = texts(paths@);
                    assert(texts(paths@.push(part)) =~= t.push(part@));
                    assert(t.push(part@) + class_path_of(v@.skip(i + 1)) =~= t + (seq![part@]
                        + class_path_of(v@.skip(i + 1))));
                }
                paths.push(part);
                start = i + 1;
                i += 1;
            } else {
                proof {
                    assert(rest[i - start] == v@[i as int]);
                }
                i += 1;
            }
        }
        let part = strip_marks(&v, start, n);
        proof {
            let rest = v@.skip(start as int);
            assert(dot_at(rest, 0) == rest.len());
            assert(rest =~= v@.subrange(start as int, n as int));
            let t = texts(paths@);
            assert(texts(paths@.push(part)) =~= t.push(part@));
        }
        paths.push(part);
        paths
    }

    /// The role of a grammar symbol, by its name; `None` for a name that is no symbol
    /// of the grammar.
    pub fn check_mode(lhs: &str) -> (mode: Option<ParseMode>)
        ensures
            mode == mode_of(lhs@),
    {
        if same_text(lhs, "expr") {
            Some(ParseMode::Expr)
        } else if same_text(lhs, "base") {
            Some(ParseMode::Base)
        } else if same_text(lhs, "term") {
            Some(ParseMode::Term)
        } else if same_text(lhs, "factor") {
            Some(ParseMode::Factor)
        } else if same_text(lhs, "operator") {
            Some(ParseMode::Operator)
        } else if same_text(lhs, "funcs") {
            Some(ParseMode::Funcs)
        } else if same_text(lhs, "vars") {
            Some(ParseMode::Vars)
        } else if same_text(lhs, "index") {
            Some(ParseMode::Path)
        } else if same_text(lhs, "fullname") {
            Some(ParseMode::Fullname)
        } else if same_text(lhs, "path") {
            Some(ParseMode::Path)
        } else if same_text(lhs, "character") || same_text(lhs, "l_paren") || same_text(
            lhs,
            "r_paren",
        ) || same_text(lhs, "delimiter") {
            Some(ParseMode::Char)
        } else {
            None
        }
    }

    /// Reads a hint expression into a tree; fails with `MalformedHint` for a text that
    /// is no expression of the grammar.
    pub fn parse_config(constraint_name: &str) -> (r: Result<ExpressionNode, ConfigError>)
        ensures
            match r {
                Ok(e) => parsed(constraint_name@) == Some(e@),
                Err(err) => err == ConfigError::MalformedHint && parsed(constraint_name@) is None,
            },
    {
        parse(constraint_name)
    }

    /// Evaluates a hint expression for a node against what the registry holds.
    pub fn eval_parse_tree(
        parses: &ExpressionNode,
        at: &Executable,
        registry: &Registry,
        timestamp: u64,
    ) -> (r: Result<u64, EvaluationError>)
        requires
            registry.wf(),
        ensures
            r == eval_spec(parses@, registry@, keys_of(at@), timestamp),
    {
        PerfExpressionEvaluator::evaluate_expression(parses, at, registry, timestamp)
    }

    /// Applies an operator to two numbers in arithmetic modulo 2^64; division and
    /// remainder by zero fail with `DivideByZero`.
    pub fn apply_operator(op: Op, a: u64, b: u64) -> (r: Result<u64, EvaluationError>)
        ensures
            r == apply(op, a, b),
    {
        match op {
            Op::Add => Ok(a.wrapping_add(b)),
            Op::Sub => Ok(a.wrapping_sub(b)),
            Op::Mul => Ok(a.wrapping_mul(b)),
            Op::Div => if b == 0 {
                Err(EvaluationError::DivideByZero)
            } else {
                Ok(a / b)
            },
            Op::Rem => if b == 0 {
                Err(EvaluationError::DivideByZero)
            } else {
                Ok(a % b)
            },
        }
    }

    /// Applies a function to the node of the given identity: `head` and `tail` give
    /// the bounds recorded for it, `createdAt` and `updatedAt` the times recorded
    /// for it; where none are recorded the function fails with `Unresolved`.
    pub fn apply_func(f: Func, id: u64, registry: &Registry) -> (r: Result<u64, EvaluationError>)
        ensures
            r == func_value(registry@, f, id),
    {
        broadcast use vstd::std_specs::hash::group_hash_axioms;

        match f {
            Func::Head => match registry.iterish_from_to.get(&id) {
                Some(b) => Ok(b.0),
                None => Err(EvaluationError::Unresolved),
            },
            Func::Tail => match registry.iterish_from_to.get(&id) {
                Some(b) => Ok(b.1),
                None => Err(EvaluationError::Unresolved),
            },
            Func::CreatedAt => match registry.node_times.get(&id) {
                Some(t) => Ok(t.0),
                None => Err(EvaluationError::Unresolved),
            },
            Func::UpdatedAt => match registry.node_times.get(&id) {
                Some(t) => Ok(t.1),
                None => Err(EvaluationError::Unresolved),
            },
        }
    }
}

} // verus!
