use vstd::prelude::*;
use vstd::string::*;
use crate::error::ConfigError;
use crate::expression::{
    block_text, classified, func_named, func_text, index_mark, is_clock, is_name, is_number,
    is_path, is_path_char, name_text, op_at, op_char, part_views, stamp_text, timestamp_text,
    ExpressionNode, Func, Op, PartView, Segment, Tree,
};
use crate::text::{
    chars_of, decimal_text, is_digit, lemma_canonical_decimal, lemma_decimal_round_trip,
    lemma_decimal_text_canonical, parse_decimal, same_text, string_of_range,
};

verus! {

/// Whether the mark `[i]` stands at position `at`.
pub open spec fn has_mark(s: Seq<char>, at: int) -> bool {
    0 <= at && at + 3 <= s.len() && s[at] == '[' && s[at + 1] == 'i' && s[at + 2] == ']'
}

/// The end of the longest run of path characters that starts at `i`.
pub open spec fn path_end_at(s: Seq<char>, i: int) -> int
    decreases s.len() - i,
{
    if 0 <= i < s.len() && is_path_char(s[i]) {
        path_end_at(s, i + 1)
    } else {
        i
    }
}

/// The name that starts at `i`, read as far as it goes, and where it ends: a path,
/// the mark `[i]` where it follows, and where a dot follows, the dot and another
/// name. `None` where no path starts at `i` or a dot is followed by no path.
pub open spec fn name_at(s: Seq<char>, i: int) -> Option<(Seq<PartView>, int)>
    decreases s.len() - i,
{
    let end = path_end_at(s, i);
    if i < 0 || end <= i || end > s.len() {
        None
    } else {
        let indexed = has_mark(s, end);
        let stop = if indexed {
            end + 3
        } else {
            end
        };
        let part = PartView { path: s.subrange(i, end), indexed };
        if stop < s.len() && s[stop] == '.' {
            match name_at(s, stop + 1) {
                None => None,
                Some((rest, j)) => Some((seq![part] + rest, j)),
            }
        } else {
            Some((seq![part], stop))
        }
    }
}

/// The factor that starts at `i`, and where it ends: an expression in brackets, a
/// function applied to an expression in brackets, or a name.
pub open spec fn factor_at(s: Seq<char>, i: int) -> Option<(Tree, int)>
    decreases s.len() - i, 0nat,
{
    if i < 0 || i >= s.len() {
        None
    } else if s[i] == '(' {
        match expr_at(s, i + 1) {
            Some((inner, k)) => if 0 <= k < s.len() && s[k] == ')' {
                Some((Tree::Group(Box::new(inner)), k + 1))
            } else {
                None
            },
            None => None,
        }
    } else {
        let end = path_end_at(s, i);
        if i < end < s.len() && s[end] == '(' {
            match func_named(s.subrange(i, end)) {
                None => None,
                Some(f) => match expr_at(s, end + 1) {
                    Some((arg, k)) => if 0 <= k < s.len() && s[k] == ')' {
                        Some((Tree::FunctionCall(f, Box::new(arg)), k + 1))
                    } else {
                        None
                    },
                    None => None,
                },
            }
        } else {
            match name_at(s, i) {
                Some((parts, j)) => Some((classified(parts), j)),
                None => None,
            }
        }
    }
}

/// The expression that starts at `i`, and where it ends: a factor, and where an
/// operator follows the factor, the operator and the expression behind it. So the
/// operators have no ranks among them and bind to the right.
pub open spec fn expr_at(s: Seq<char>, i: int) -> Option<(Tree, int)>
    decreases s.len() - i, 1nat,
{
    match factor_at(s, i) {
        None => None,
        Some((left, j)) => if i < j < s.len() && op_at(s[j]) is Some {
            match expr_at(s, j + 1) {
                None => None,
                Some((right, k)) => Some(
                    (Tree::Operator(op_at(s[j])->0, Box::new(left), Box::new(right)), k),
                ),
            }
        } else {
            Some((left, j))
        },
    }
}

/// The tree of a text that is, as a whole, an expression of the grammar; `None` for
/// any other text.
pub open spec fn parsed(s: Seq<char>) -> Option<Tree> {
    match expr_at(s, 0) {
        Some((t, j)) => if j == s.len() {
            Some(t)
        } else {
            None
        },
        None => None,
    }
}

/// A name read at `i` with the parts read before it put in front.
pub open spec fn prepend(head: Seq<PartView>, rest: Option<(Seq<PartView>, int)>) -> Option<
    (Seq<PartView>, int),
> {
    match rest {
        None => None,
        Some((parts, j)) => Some((head + parts, j)),
    }
}

/// The operator that a character is, if it is one.
fn op_of(c: char) -> (r: Option<Op>)
    ensures
        r == op_at(c),
{
    if c == '+' {
        Some(Op::Add)
    } else if c == '-' {
        Some(Op::Sub)
    } else if c == '*' {
        Some(Op::Mul)
    } else if c == '/' {
        Some(Op::Div)
    } else if c == '%' {
        Some(Op::Rem)
    } else {
        None
    }
}

/// Whether a character may stand in a path.
fn path_char(c: char) -> (r: bool)
    ensures
        r == is_path_char(c),
{
    ('a' <= c && c <= 'z') || ('A' <= c && c <= 'Z') || ('0' <= c && c <= '9') || c == '$' || c
        == '_'
}

/// The end of the longest run of path characters that starts at `i`.
fn path_end(v: &Vec<char>, i: usize) -> (j: usize)
    requires
        i <= v.len(),
    ensures
        i <= j <= v.len(),
        j == path_end_at(v@, i as int),
{
    let mut j: usize = i;
    while j < v.len() && path_char(v[j])
        invariant
            i <= j <= v.len(),
            path_end_at(v@, i as int) == path_end_at(v@, j as int),
        decreases v.len() - j,
    {
        j += 1;
    }
    j
}

/// Whether the characters from `from` to `to` are exactly those of `lit`.
fn range_is(v: &Vec<char>, from: usize, to: usize, lit: &str) -> (r: bool)
    requires
        from <= to <= v.len(),
    ensures
        r == (v@.subrange(from as int, to as int) == lit@),
{
    let w = chars_of(lit);
    if w.len() != to - from {
        return false;
    }
    let mut k: usize = 0;
    while k < w.len()
        invariant
            from <= to <= v.len(),
            w.len() == to - from,
            k <= w.len(),
            w@ == lit@,
            forall|m: int| 0 <= m < k ==> v@[from + m] == w@[m],
        decreases w.len() - k,
    {
        if v[from + k] != w[k] {
            assert(v@.subrange(from as int, to as int)[k as int] != w@[k as int]);
            return false;
        }
        k += 1;
    }
    assert(v@.subrange(from as int, to as int) =~= w@);
    true
}

/// The function that the characters from `from` to `to` name, if they name one.
fn func_of(v: &Vec<char>, from: usize, to: usize) -> (r: Option<Func>)
    requires
        from <= to <= v.len(),
    ensures
        r == func_named(v@.subrange(from as int, to as int)),
{
    proof {
        reveal_strlit("createdAt");
        reveal_strlit("updatedAt");
        reveal_strlit("head");
        reveal_strlit("tail");
        assert("createdAt"@ =~= func_text(Func::CreatedAt));
        assert("updatedAt"@ =~= func_text(Func::UpdatedAt));
        assert("head"@ =~= func_text(Func::Head));
        assert("tail"@ =~= func_text(Func::Tail));
    }
    if range_is(v, from, to, "createdAt") {
        Some(Func::CreatedAt)
    } else if range_is(v, from, to, "updatedAt") {
        Some(Func::UpdatedAt)
    } else if range_is(v, from, to, "head") {
        Some(Func::Head)
    } else if range_is(v, from, to, "tail") {
        Some(Func::Tail)
    } else {
        None
    }
}

/// Reads the name that starts at `i`, as far as it goes.
fn parse_name(v: &Vec<char>, i: usize) -> (r: Option<(Vec<Segment>, usize)>)
    requires
        i <= v.len(),
    ensures
        match r {
            Some((segs, j)) => j <= v.len() && name_at(v@, i as int) == Some(
                (part_views(segs@), j as int),
            ),
            None => name_at(v@, i as int) is None,
        },
{
    let n = v.len();
    let mut segs: Vec<Segment> = Vec::new();
    let mut pos: usize = i;
    proof {
        let x = name_at(v@, i as int);
        let none = part_views(segs@);
        assert(none =~= Seq::<PartView>::empty());
        match x {
            Some((parts, _)) => {
                assert(none + parts =~= parts);
            },
            None => {},
        }
        assert(prepend(none, x) == x);
    }
    loop
        invariant
            n == v.len(),
            i <= pos <= n,
            name_at(v@, i as int) == prepend(part_views(segs@), name_at(v@, pos as int)),
        decreases n - pos,
    {
        let ghost acc = part_views(segs@);
        let end = path_end(v, pos);
        if end == pos {
            return None;
        }
        let path = string_of_range(v, pos, end);
        let indexed = n - end >= 3 && v[end] == '[' && v[end + 1] == 'i' && v[end + 2] == ']';
        let stop: usize = if indexed {
            end + 3
        } else {
            end
        };
        let seg = Segment { path, indexed };
        let ghost part = seg@;
        assert(part == PartView { path: v@.subrange(pos as int, end as int), indexed });
        segs.push(seg);
        assert(part_views(segs@) =~= acc.push(part));
        if stop < n && v[stop] == '.' {
            proof {
                let x = name_at(v@, stop + 1);
                match x {
                    Some((parts, _)) => {
                        assert(acc + (seq![part] + parts) =~= acc.push(part) + parts);
                    },
                    None => {},
                }
                assert(prepend(acc, prepend(seq![part], x)) == prepend(acc.push(part), x));
            }
            pos = stop + 1;
        } else {
            assert(acc + seq![part] =~= acc.push(part));
            return Some((segs, stop));
        }
    }
}

/// What a name stands for: the clock, a numeral, or a storage node.
fn classify(segs: Vec<Segment>) -> (e: ExpressionNode)
    ensures
        e@ == classified(part_views(segs@)),
{
    let ghost parts = part_views(segs@);
    if segs.len() == 2 && !segs[0].indexed && !segs[1].indexed {
        proof {
            reveal_strlit("block");
            reveal_strlit("timestamp");
            assert("block"@ =~= block_text());
            assert("timestamp"@ =~= stamp_text());
            assert(parts[0] == segs@[0]@ && parts[1] == segs@[1]@);
        }
        if same_text(segs[0].path.as_str(), "block") && same_text(
            segs[1].path.as_str(),
            "timestamp",
        ) {
            return ExpressionNode::Timestamp;
        }
    }
    if segs.len() == 1 && !segs[0].indexed {
        assert(parts[0] == segs@[0]@);
        match parse_decimal(segs[0].path.as_str()) {
            Some(n) => {
                let digits = chars_of(segs[0].path.as_str());
                if digits.len() == 1 || digits[0] != '0' {
                    return ExpressionNode::Literal(n);
                }
            },
            None => {},
        }
    }
    assert(!is_clock(parts)) by {
        if segs@.len() == 2 {
            assert(parts[0] == segs@[0]@ && parts[1] == segs@[1]@);
        }
    }
    assert(!is_number(parts));
    ExpressionNode::Variable(segs)
}

/// Reads the factor that starts at `i`.
fn parse_factor(v: &Vec<char>, i: usize) -> (r: Option<(ExpressionNode, usize)>)
    requires
        i <= v.len(),
    ensures
        match r {
            Some((e, j)) => j <= v.len() && factor_at(v@, i as int) == Some((e@, j as int)),
            None => factor_at(v@, i as int) is None,
        },
    decreases v.len() - i, 0nat,
{
    let n = v.len();
    if i >= n {
        return None;
    }
    if v[i] == '(' {
        let (inner, k) = match parse_expr(v, i + 1) {
            Some(found) => found,
            None => {
                return None;
            },
        };
        if k < n && v[k] == ')' {
            return Some((ExpressionNode::Group(Box::new(inner)), k + 1));
        }
        return None;
    }
    let end = path_end(v, i);
    if end > i && end < n && v[end] == '(' {
        let f = match func_of(v, i, end) {
            Some(f) => f,
            None => {
                return None;
            },
        };
        let (arg, k) = match parse_expr(v, end + 1) {
            Some(found) => found,
            None => {
                return None;
            },
        };
        if k < n && v[k] == ')' {
            return Some((ExpressionNode::FunctionCall(f, Box::new(arg)), k + 1));
        }
        return None;
    }
    match parse_name(v, i) {
        Some((segs, j)) => Some((classify(segs), j)),
        None => None,
    }
}

/// Reads the expression that starts at `i`.
fn parse_expr(v: &Vec<char>, i: usize) -> (r: Option<(ExpressionNode, usize)>)
    requires
        i <= v.len(),
    ensures
        match r {
            Some((e, j)) => j <= v.len() && expr_at(v@, i as int) == Some((e@, j as int)),
            None => expr_at(v@, i as int) is None,
        },
    decreases v.len() - i, 1nat,
{
    let n = v.len();
    let (left, j) = match parse_factor(v, i) {
        Some(found) => found,
        None => {
            return None;
        },
    };
    if i < j && j < n {
        match op_of(v[j]) {
            Some(op) => {
                let (right, k) = match parse_expr(v, j + 1) {
                    Some(found) => found,
                    None => {
                        return None;
                    },
                };
                return Some((ExpressionNode::Operator(op, Box::new(left), Box::new(right)), k));
            },
            None => {},
        }
    }
    Some((left, j))
}

/// Reads a hint expression into a tree.
///
/// The text is an expression of the grammar as a whole, without blanks. Operators
/// have no ranks among them and bind to the right: what follows an operator, up to
/// the end or a closing bracket, is its right operand.
pub fn parse(text: &str) -> (r: Result<ExpressionNode, ConfigError>)
    ensures
        match r {
            Ok(e) => parsed(text@) == Some(e@),
            Err(err) => err == ConfigError::MalformedHint && parsed(text@) is None,
        },
{
    let v = chars_of(text);
    match parse_expr(&v, 0) {
        Some((e, j)) => {
            if j == v.len() {
                Ok(e)
            } else {
                Err(ConfigError::MalformedHint)
            }
        },
        None => Err(ConfigError::MalformedHint),
    }
}

/// Where a run of path characters ends: at or behind its start, with path characters
/// only before the end and none at it.
pub proof fn lemma_path_end(s: Seq<char>, i: int)
    requires
        0 <= i <= s.len(),
    ensures
        i <= path_end_at(s, i) <= s.len(),
        forall|k: int| i <= k < path_end_at(s, i) ==> is_path_char(#[trigger] s[k]),
        path_end_at(s, i) < s.len() ==> !is_path_char(s[path_end_at(s, i)]),
    decreases s.len() - i,
{
    if i < s.len() && is_path_char(s[i]) {
        lemma_path_end(s, i + 1);
    }
}

/// A run of path characters that is followed by none ends where it is followed.
pub proof fn lemma_path_end_is(s: Seq<char>, i: int, e: int)
    requires
        0 <= i <= e <= s.len(),
        forall|k: int| i <= k < e ==> is_path_char(#[trigger] s[k]),
        e < s.len() ==> !is_path_char(s[e]),
    ensures
        path_end_at(s, i) == e,
    decreases e - i,
{
    if i < e {
        assert(is_path_char(s[i]));
        lemma_path_end_is(s, i + 1, e);
    }
}

/// Whether what was read at `i` is a name, ends behind `i`, and is written as the
/// text read.
pub open spec fn name_fits(s: Seq<char>, i: int, r: (Seq<PartView>, int)) -> bool {
    let (parts, j) = r;
    &&& i < j <= s.len()
    &&& is_name(parts)
    &&& name_text(parts) == s.subrange(i, j)
}

/// Whether what was read at `i` is a tree of the grammar, ends behind `i`, and is
/// written as the text read.
pub open spec fn tree_fits(s: Seq<char>, i: int, r: (Tree, int)) -> bool {
    let (t, j) = r;
    &&& i < j <= s.len()
    &&& t.wf()
    &&& t.render() == s.subrange(i, j)
}

/// A name that is read is written as the text it was read from.
pub proof fn lemma_name_sound(s: Seq<char>, i: int)
    requires
        0 <= i <= s.len(),
        name_at(s, i) is Some,
    ensures
        name_fits(s, i, name_at(s, i)->0),
    decreases s.len() - i,
{
    lemma_path_end(s, i);
    let end = path_end_at(s, i);
    let indexed = has_mark(s, end);
    let stop = if indexed {
        end + 3
    } else {
        end
    };
    let part = PartView { path: s.subrange(i, end), indexed };
    assert(is_path(part.path)) by {
        assert forall|k: int| 0 <= k < part.path.len() implies is_path_char(
            #[trigger] part.path[k],
        ) by {
            assert(part.path[k] == s[i + k]);
        }
    }
    assert(part.text() =~= s.subrange(i, stop));
    if stop < s.len() && s[stop] == '.' {
        lemma_name_sound(s, stop + 1);
        let (rest, j) = name_at(s, stop + 1)->0;
        let parts = seq![part] + rest;
        assert(parts.drop_first() =~= rest);
        assert(parts[0] == part);
        assert(name_text(parts) =~= s.subrange(i, j));
        assert forall|k: int| 0 <= k < parts.len() implies is_path(#[trigger] parts[k].path) by {
            if k > 0 {
                assert(parts[k] == rest[k - 1]);
            }
        }
    } else {
        let parts = seq![part];
        assert(parts[0] == part);
    }
}

/// What a name stands for is a tree of the grammar, no operator expression, and is
/// written as the name.
pub proof fn lemma_classified(parts: Seq<PartView>)
    requires
        is_name(parts),
    ensures
        classified(parts).wf(),
        !(classified(parts) is Operator),
        classified(parts).render() == name_text(parts),
{
    if is_clock(parts) {
        let rest = parts.drop_first();
        assert(rest[0] == parts[1]);
        assert(name_text(rest) == parts[1].path);
        assert(name_text(parts) =~= timestamp_text());
    } else if is_number(parts) {
        lemma_canonical_decimal(parts[0].path);
    }
}

/// The tree of what was read.
pub open spec fn tree_read(r: Option<(Tree, int)>) -> Tree {
    match r {
        Some((t, _)) => t,
        None => Tree::Timestamp,
    }
}

/// A factor that is read is written as the text it was read from.
pub proof fn lemma_factor_sound(s: Seq<char>, i: int)
    requires
        0 <= i <= s.len(),
        factor_at(s, i) is Some,
    ensures
        tree_fits(s, i, factor_at(s, i)->0),
        !(tree_read(factor_at(s, i)) is Operator),
    decreases s.len() - i, 0nat,
{
    if s[i] == '(' {
        lemma_expr_sound(s, i + 1);
        let (inner, k) = expr_at(s, i + 1)->0;
        let t = Tree::Group(Box::new(inner));
        assert(t.render() =~= s.subrange(i, k + 1));
    } else {
        lemma_path_end(s, i);
        let end = path_end_at(s, i);
        if i < end < s.len() && s[end] == '(' {
            let f = func_named(s.subrange(i, end))->0;
            lemma_expr_sound(s, end + 1);
            let (arg, k) = expr_at(s, end + 1)->0;
            let t = Tree::FunctionCall(f, Box::new(arg));
            assert(func_text(f) == s.subrange(i, end));
            assert(t.render() =~= s.subrange(i, k + 1));
        } else {
            lemma_name_sound(s, i);
            let (parts, j) = name_at(s, i)->0;
            lemma_classified(parts);
        }
    }
}

/// An expression that is read is written as the text it was read from.
pub proof fn lemma_expr_sound(s: Seq<char>, i: int)
    requires
        0 <= i <= s.len(),
        expr_at(s, i) is Some,
    ensures
        tree_fits(s, i, expr_at(s, i)->0),
    decreases s.len() - i, 1nat,
{
    lemma_factor_sound(s, i);
    let (left, j) = factor_at(s, i)->0;
    if i < j < s.len() && op_at(s[j]) is Some {
        lemma_expr_sound(s, j + 1);
        let (right, k) = expr_at(s, j + 1)->0;
        let op = op_at(s[j])->0;
        let t = Tree::Operator(op, Box::new(left), Box::new(right));
        assert(op_char(op) == s[j]);
        assert(t.render() =~= s.subrange(i, k));
    }
}

/// The two parts of a text that is two texts laid end to end.
proof fn lemma_split(s: Seq<char>, i: int, a: Seq<char>, b: Seq<char>)
    requires
        0 <= i,
        i + a.len() + b.len() <= s.len(),
        s.subrange(i, i + a.len() + b.len()) == a + b,
    ensures
        s.subrange(i, i + a.len()) == a,
        s.subrange(i + a.len(), i + a.len() + b.len()) == b,
{
    let w = s.subrange(i, i + a.len() + b.len());
    assert forall|k: int| 0 <= k < a.len() implies s[i + k] == a[k] by {
        assert(w[k] == s[i + k]);
        assert((a + b)[k] == a[k]);
    }
    assert forall|k: int| 0 <= k < b.len() implies s[i + a.len() + k] == b[k] by {
        assert(w[a.len() + k] == s[i + a.len() + k]);
        assert((a + b)[a.len() + k] == b[k]);
    }
    assert(s.subrange(i, i + a.len()) =~= a);
    assert(s.subrange(i + a.len(), i + a.len() + b.len()) =~= b);
}

/// Whether a name that ends at `j` can go no further: the text ends there, or what
/// stands there is no path character, bracket or dot.
pub open spec fn name_stops(s: Seq<char>, j: int) -> bool {
    j >= s.len() || (!is_path_char(s[j]) && s[j] != '[' && s[j] != '.' && s[j] != '(')
}

/// Whether a factor that ends at `j` can go no further: the text ends there, or a
/// closing bracket or an operator stands there.
pub open spec fn factor_stops(s: Seq<char>, j: int) -> bool {
    j >= s.len() || s[j] == ')' || op_at(s[j]) is Some
}

/// Whether an expression that ends at `j` can go no further: the text ends there, or
/// a closing bracket stands there.
pub open spec fn expr_stops(s: Seq<char>, j: int) -> bool {
    j >= s.len() || s[j] == ')'
}

/// A name that is written at `i` and can go no further is the name read at `i`.
pub proof fn lemma_name_complete(s: Seq<char>, i: int, parts: Seq<PartView>)
    requires
        is_name(parts),
        0 <= i,
        i + name_text(parts).len() <= s.len(),
        s.subrange(i, i + name_text(parts).len()) == name_text(parts),
        name_stops(s, i + name_text(parts).len()),
    ensures
        name_at(s, i) == Some((parts, i + name_text(parts).len())),
        path_end_at(s, i) == i + parts[0].path.len(),
        i + parts[0].path.len() < s.len() ==> s[i + parts[0].path.len()] != '(',
        s[i] != '(',
    decreases parts.len(),
{
    let whole = name_text(parts);
    let j = i + whole.len();
    let first = parts[0];
    let e0 = i + first.path.len();
    let stop = i + first.text().len();
    assert(is_path(first.path));
    let rest = parts.drop_first();
    let tail = if parts.len() == 1 {
        Seq::<char>::empty()
    } else {
        seq!['.'] + name_text(rest)
    };
    let after = if first.indexed {
        index_mark() + tail
    } else {
        tail
    };
    assert(whole =~= first.path + after);
    lemma_split(s, i, first.path, after);
    assert forall|k: int| i <= k < e0 implies is_path_char(#[trigger] s[k]) by {
        assert(s.subrange(i, e0)[k - i] == s[k]);
        assert(is_path_char(first.path[k - i]));
    }
    assert(s[i] == first.path[0]) by {
        assert(s.subrange(i, e0)[0] == s[i]);
    }
    if e0 < j {
        assert(s[e0] == after[0]) by {
            assert(s.subrange(e0, e0 + after.len())[0] == s[e0]);
        }
    }
    lemma_path_end_is(s, i, e0);
    if first.indexed {
        assert(after =~= index_mark() + tail);
        lemma_split(s, e0, index_mark(), tail);
        let m = s.subrange(e0, e0 + 3);
        assert(m[0] == s[e0] && m[1] == s[e0 + 1] && m[2] == s[e0 + 2]);
        assert(has_mark(s, e0));
    } else {
        assert(!has_mark(s, e0));
    }
    assert(s.subrange(i, e0) == first.path);
    let part = PartView { path: s.subrange(i, e0), indexed: first.indexed };
    assert(part == first);
    if parts.len() == 1 {
        assert(stop == j);
        assert(seq![part] =~= parts);
    } else {
        assert(s.subrange(stop, stop + tail.len()) == tail);
        lemma_split(s, stop, seq!['.'], name_text(rest));
        assert(s[stop] == '.') by {
            assert(s.subrange(stop, stop + 1)[0] == s[stop]);
        }
        assert(is_name(rest)) by {
            assert forall|k: int| 0 <= k < rest.len() implies is_path(#[trigger] rest[k].path) by {
                assert(rest[k] == parts[k + 1]);
            }
        }
        lemma_name_complete(s, stop + 1, rest);
        assert(seq![part] + rest =~= parts);
    }
}

/// What is written for a tree of the grammar is not empty.
pub proof fn lemma_render_nonempty(t: Tree)
    requires
        t.wf(),
    ensures
        t.render().len() > 0,
    decreases t,
{
    match t {
        Tree::Variable(parts) => {
            assert(is_path(parts[0].path));
        },
        Tree::Literal(n) => {
            lemma_decimal_text_canonical(n as nat);
        },
        Tree::Operator(_, left, _) => {
            lemma_render_nonempty(*left);
        },
        _ => {},
    }
}

/// The parts that spell the clock variable.
pub open spec fn clock_parts() -> Seq<PartView> {
    seq![
        PartView { path: block_text(), indexed: false },
        PartView { path: stamp_text(), indexed: false },
    ]
}

/// The parts of the clock variable are a name, spell the clock, and are written as
/// the clock is.
proof fn lemma_clock_parts()
    ensures
        is_name(clock_parts()),
        is_clock(clock_parts()),
        name_text(clock_parts()) == timestamp_text(),
{
    let b = block_text();
    assert(is_path_char(b[0]) && is_path_char(b[1]) && is_path_char(b[2]) && is_path_char(b[3])
        && is_path_char(b[4]));
    let t = stamp_text();
    assert(is_path_char(t[0]) && is_path_char(t[1]) && is_path_char(t[2]) && is_path_char(t[3])
        && is_path_char(t[4]) && is_path_char(t[5]) && is_path_char(t[6]) && is_path_char(t[7])
        && is_path_char(t[8]));
    let rest = clock_parts().drop_first();
    assert(rest[0] == clock_parts()[1]);
    assert(name_text(rest) == stamp_text());
    assert(name_text(clock_parts()) =~= timestamp_text());
}

/// The name of a function is a path and names that function.
proof fn lemma_func_text(f: Func)
    ensures
        is_path(func_text(f)),
        func_named(func_text(f)) == Some(f),
{
    let t = func_text(f);
    match f {
        Func::CreatedAt => {
            assert(is_path_char(t[0]) && is_path_char(t[1]) && is_path_char(t[2]) && is_path_char(
                t[3],
            ) && is_path_char(t[4]) && is_path_char(t[5]) && is_path_char(t[6]) && is_path_char(
                t[7],
            ) && is_path_char(t[8]));
        },
        Func::UpdatedAt => {
            assert(is_path_char(t[0]) && is_path_char(t[1]) && is_path_char(t[2]) && is_path_char(
                t[3],
            ) && is_path_char(t[4]) && is_path_char(t[5]) && is_path_char(t[6]) && is_path_char(
                t[7],
            ) && is_path_char(t[8]));
            assert(t[0] != func_text(Func::CreatedAt)[0]);
        },
        Func::Head => {
            assert(is_path_char(t[0]) && is_path_char(t[1]) && is_path_char(t[2]) && is_path_char(
                t[3],
            ));
        },
        Func::Tail => {
            assert(is_path_char(t[0]) && is_path_char(t[1]) && is_path_char(t[2]) && is_path_char(
                t[3],
            ));
            assert(t[0] != func_text(Func::Head)[0]);
        },
    }
}

/// The character of an operator is that operator and ends a name.
proof fn lemma_op_char(op: Op)
    ensures
        op_at(op_char(op)) == Some(op),
        !is_path_char(op_char(op)),
        op_char(op) != '(' && op_char(op) != ')' && op_char(op) != '[' && op_char(op) != '.',
{
}

/// A factor that is written at `i` and can go no further is the factor read at `i`.
pub proof fn lemma_factor_complete(s: Seq<char>, i: int, t: Tree)
    requires
        t.wf(),
        !(t is Operator),
        0 <= i,
        i + t.render().len() <= s.len(),
        s.subrange(i, i + t.render().len()) == t.render(),
        factor_stops(s, i + t.render().len()),
    ensures
        factor_at(s, i) == Some((t, i + t.render().len())),
    decreases t, 0nat,
{
    let j = i + t.render().len();
    lemma_render_nonempty(t);
    if j < s.len() && op_at(s[j]) is Some {
        lemma_op_char(op_at(s[j])->0);
    }
    assert(name_stops(s, j));
    match t {
        Tree::Group(inner) => {
            let ir = inner.render();
            assert(t.render() =~= seq!['('] + (ir + seq![')']));
            lemma_split(s, i, seq!['('], ir + seq![')']);
            lemma_split(s, i + 1, ir, seq![')']);
            assert(s[i] == '(') by {
                assert(s.subrange(i, i + 1)[0] == s[i]);
            }
            let k = i + 1 + ir.len();
            assert(s[k] == ')') by {
                assert(s.subrange(k, k + 1)[0] == s[k]);
            }
            lemma_expr_complete(s, i + 1, *inner);
        },
        Tree::FunctionCall(f, arg) => {
            let name = func_text(f);
            let ar = arg.render();
            lemma_func_text(f);
            assert(t.render() =~= name + (seq!['('] + (ar + seq![')'])));
            lemma_split(s, i, name, seq!['('] + (ar + seq![')']));
            let e = i + name.len();
            lemma_split(s, e, seq!['('], ar + seq![')']);
            lemma_split(s, e + 1, ar, seq![')']);
            assert(s[e] == '(') by {
                assert(s.subrange(e, e + 1)[0] == s[e]);
            }
            let k = e + 1 + ar.len();
            assert(s[k] == ')') by {
                assert(s.subrange(k, k + 1)[0] == s[k]);
            }
            assert forall|m: int| i <= m < e implies is_path_char(#[trigger] s[m]) by {
                assert(s.subrange(i, e)[m - i] == s[m]);
                assert(is_path_char(name[m - i]));
            }
            assert(s[i] != '(') by {
                assert(is_path_char(s[i]));
            }
            lemma_path_end_is(s, i, e);
            lemma_expr_complete(s, e + 1, *arg);
        },
        Tree::Variable(parts) => {
            lemma_name_complete(s, i, parts);
        },
        Tree::Timestamp => {
            lemma_clock_parts();
            lemma_name_complete(s, i, clock_parts());
        },
        Tree::Literal(n) => {
            let digits = decimal_text(n as nat);
            let parts = seq![PartView { path: digits, indexed: false }];
            lemma_decimal_round_trip(n as nat);
            lemma_decimal_text_canonical(n as nat);
            assert(is_name(parts)) by {
                assert forall|k: int| 0 <= k < digits.len() implies is_path_char(
                    #[trigger] digits[k],
                ) by {
                    assert(is_digit(digits[k]));
                }
            }
            assert(name_text(parts) == digits);
            lemma_name_complete(s, i, parts);
            assert(is_number(parts));
            assert(!is_clock(parts));
        },
        Tree::Operator(_, _, _) => {},
    }
}

/// An expression that is written at `i` and can go no further is the expression
/// read at `i`.
pub proof fn lemma_expr_complete(s: Seq<char>, i: int, t: Tree)
    requires
        t.wf(),
        0 <= i,
        i + t.render().len() <= s.len(),
        s.subrange(i, i + t.render().len()) == t.render(),
        expr_stops(s, i + t.render().len()),
    ensures
        expr_at(s, i) == Some((t, i + t.render().len())),
    decreases t, 1nat,
{
    let j = i + t.render().len();
    lemma_render_nonempty(t);
    match t {
        Tree::Operator(op, left, right) => {
            let lr = left.render();
            let rr = right.render();
            lemma_render_nonempty(*left);
            lemma_op_char(op);
            assert(t.render() =~= lr + (seq![op_char(op)] + rr));
            lemma_split(s, i, lr, seq![op_char(op)] + rr);
            let m = i + lr.len();
            lemma_split(s, m, seq![op_char(op)], rr);
            assert(s[m] == op_char(op)) by {
                assert(s.subrange(m, m + 1)[0] == s[m]);
            }
            lemma_factor_complete(s, i, *left);
            lemma_expr_complete(s, m + 1, *right);
        },
        _ => {
            lemma_factor_complete(s, i, t);
        },
    }
}

/// The tree of a text is a tree of the grammar and is written as the text.
pub proof fn lemma_parsed_sound(s: Seq<char>)
    requires
        parsed(s) is Some,
    ensures
        parsed(s)->0.wf(),
        parsed(s)->0.render() == s,
{
    lemma_expr_sound(s, 0);
    assert(s.subrange(0, s.len() as int) =~= s);
}

/// What is written for a tree of the grammar has that tree, and no other.
pub proof fn lemma_parsed_complete(t: Tree)
    requires
        t.wf(),
    ensures
        parsed(t.render()) == Some(t),
{
    let s = t.render();
    assert(s.subrange(0, s.len() as int) =~= s);
    lemma_expr_complete(s, 0, t);
}

} // verus!
