use vstd::prelude::*;
use vstd::string::*;
use crate::text::{decimal_text, decimal_value, is_decimal};

verus! {

/// The five operators of a hint expression.
#[derive(Clone, Copy, Debug, PartialEq, Eq, Structural)]
pub enum Op {
    Add,
    Sub,
    Mul,
    Div,
    Rem,
}

/// The four functions of a hint expression.
#[derive(Clone, Copy, Debug, PartialEq, Eq, Structural)]
pub enum Func {
    CreatedAt,
    UpdatedAt,
    Head,
    Tail,
}

/// One part of a name between dots: a path, and whether `[i]` follows it.
#[derive(Debug, PartialEq, Eq)]
pub struct Segment {
    pub path: String,
    pub indexed: bool,
}

/// A hint expression as a tree.
#[derive(Debug, PartialEq, Eq)]
pub enum ExpressionNode {
    /// A name of a storage node, part by part.
    Variable(Vec<Segment>),
    /// `block.timestamp`.
    Timestamp,
    /// A function applied to an expression in brackets.
    FunctionCall(Func, Box<ExpressionNode>),
    /// Two expressions with an operator between them.
    Operator(Op, Box<ExpressionNode>, Box<ExpressionNode>),
    /// A decimal numeral.
    Literal(u64),
    /// An expression in brackets.
    Group(Box<ExpressionNode>),
}

impl Clone for Segment {
    fn clone(&self) -> (s: Self)
        ensures
            s == *self,
    {
        Segment { path: self.path.clone(), indexed: self.indexed }
    }
}

impl ExpressionNode {
    /// A copy of the tree.
    pub fn duplicate(&self) -> (e: Self)
        ensures
            e@ == self@,
        decreases self,
    {
        match self {
            ExpressionNode::Variable(segs) => {
                let mut copy: Vec<Segment> = Vec::new();
                let mut i: usize = 0;
                while i < segs.len()
                    invariant
                        i <= segs.len(),
                        copy@ == segs@.take(i as int),
                    decreases segs.len() - i,
                {
                    copy.push(segs[i].clone());
                    assert(segs@.take(i + 1) =~= segs@.take(i as int).push(segs@[i as int]));
                    i += 1;
                }
                assert(segs@.take(i as int) =~= segs@);
                assert(part_views(copy@) =~= part_views(segs@));
                ExpressionNode::Variable(copy)
            },
            ExpressionNode::Timestamp => ExpressionNode::Timestamp,
            ExpressionNode::FunctionCall(f, arg) => ExpressionNode::FunctionCall(
                *f,
                Box::new(arg.duplicate()),
            ),
            ExpressionNode::Operator(op, left, right) => ExpressionNode::Operator(
                *op,
                Box::new(left.duplicate()),
                Box::new(right.duplicate()),
            ),
            ExpressionNode::Literal(n) => ExpressionNode::Literal(*n),
            ExpressionNode::Group(inner) => ExpressionNode::Group(Box::new(inner.duplicate())),
        }
    }
}

impl Clone for ExpressionNode {
    fn clone(&self) -> (e: Self)
        ensures
            e@ == self@,
    {
        self.duplicate()
    }
}

/// A part of a name, its path as characters.
pub struct PartView {
    pub path: Seq<char>,
    pub indexed: bool,
}

/// A hint expression as a tree, its names as characters.
pub enum Tree {
    Variable(Seq<PartView>),
    Timestamp,
    FunctionCall(Func, Box<Tree>),
    Operator(Op, Box<Tree>, Box<Tree>),
    Literal(u64),
    Group(Box<Tree>),
}

impl View for Segment {
    type V = PartView;

    open spec fn view(&self) -> PartView {
        PartView { path: self.path@, indexed: self.indexed }
    }
}

/// The views of the parts of a name.
pub open spec fn part_views(segs: Seq<Segment>) -> Seq<PartView> {
    segs.map_values(|s: Segment| s@)
}

/// The view of an expression: the tree with each path as its characters.
pub open spec fn tree_of(e: ExpressionNode) -> Tree
    decreases e,
{
    match e {
        ExpressionNode::Variable(segs) => Tree::Variable(part_views(segs@)),
        ExpressionNode::Timestamp => Tree::Timestamp,
        ExpressionNode::FunctionCall(f, arg) => Tree::FunctionCall(f, Box::new(tree_of(*arg))),
        ExpressionNode::Operator(op, left, right) => Tree::Operator(
            op,
            Box::new(tree_of(*left)),
            Box::new(tree_of(*right)),
        ),
        ExpressionNode::Literal(n) => Tree::Literal(n),
        ExpressionNode::Group(inner) => Tree::Group(Box::new(tree_of(*inner))),
    }
}

impl View for ExpressionNode {
    type V = Tree;

    open spec fn view(&self) -> Tree {
        tree_of(*self)
    }
}

/// Whether `c` may stand in a path: a letter, a digit, `$` or `_`.
pub open spec fn is_path_char(c: char) -> bool {
    ('a' <= c <= 'z') || ('A' <= c <= 'Z') || ('0' <= c <= '9') || c == '$' || c == '_'
}

/// Whether `s` is a path: one path character or more and nothing else.
pub open spec fn is_path(s: Seq<char>) -> bool {
    s.len() > 0 && forall|i: int| 0 <= i < s.len() ==> is_path_char(#[trigger] s[i])
}

/// The mark that stands for the key of a collection element.
pub open spec fn index_mark() -> Seq<char> {
    seq!['[', 'i', ']']
}

/// The first part of the name of the clock variable.
pub open spec fn block_text() -> Seq<char> {
    seq!['b', 'l', 'o', 'c', 'k']
}

/// The second part of the name of the clock variable.
pub open spec fn stamp_text() -> Seq<char> {
    seq!['t', 'i', 'm', 'e', 's', 't', 'a', 'm', 'p']
}

/// The name of the clock variable, `block.timestamp`.
pub open spec fn timestamp_text() -> Seq<char> {
    block_text() + seq!['.'] + stamp_text()
}

/// The character of an operator.
pub open spec fn op_char(op: Op) -> char {
    match op {
        Op::Add => '+',
        Op::Sub => '-',
        Op::Mul => '*',
        Op::Div => '/',
        Op::Rem => '%',
    }
}

/// The operator that a character is, if it is one.
pub open spec fn op_at(c: char) -> Option<Op> {
    if c == '+' {
        Some(Op::Add)
    } else if c == '-' {
        Some(Op::Sub)
    } else if c == '*' {
        Some(Op::Mul)
    } else if c == '/' {
        Some(Op::Div)
    } else if c == '%' {
        Some(Op::Rem)
    } else {
        None
    }
}

/// The name of a function.
pub open spec fn func_text(f: Func) -> Seq<char> {
    match f {
        Func::CreatedAt => seq!['c', 'r', 'e', 'a', 't', 'e', 'd', 'A', 't'],
        Func::UpdatedAt => seq!['u', 'p', 'd', 'a', 't', 'e', 'd', 'A', 't'],
        Func::Head => seq!['h', 'e', 'a', 'd'],
        Func::Tail => seq!['t', 'a', 'i', 'l'],
    }
}

/// The function that a name is, if it is one.
pub open spec fn func_named(name: Seq<char>) -> Option<Func> {
    if name == func_text(Func::CreatedAt) {
        Some(Func::CreatedAt)
    } else if name == func_text(Func::UpdatedAt) {
        Some(Func::UpdatedAt)
    } else if name == func_text(Func::Head) {
        Some(Func::Head)
    } else if name == func_text(Func::Tail) {
        Some(Func::Tail)
    } else {
        None
    }
}

impl PartView {
    /// The part as it is written.
    pub open spec fn text(self) -> Seq<char> {
        if self.indexed {
            self.path + index_mark()
        } else {
            self.path
        }
    }
}

/// A name as it is written: its parts with dots between them.
pub open spec fn name_text(parts: Seq<PartView>) -> Seq<char>
    decreases parts.len(),
{
    if parts.len() == 0 {
        Seq::<char>::empty()
    } else if parts.len() == 1 {
        parts[0].text()
    } else {
        parts[0].text() + seq!['.'] + name_text(parts.drop_first())
    }
}

/// Whether the parts make a name: one part or more, each with a path.
pub open spec fn is_name(parts: Seq<PartView>) -> bool {
    parts.len() > 0 && forall|i: int| 0 <= i < parts.len() ==> is_path(#[trigger] parts[i].path)
}

/// Whether the parts spell the clock variable.
pub open spec fn is_clock(parts: Seq<PartView>) -> bool {
    &&& parts.len() == 2
    &&& !parts[0].indexed
    &&& !parts[1].indexed
    &&& parts[0].path == block_text()
    &&& parts[1].path == stamp_text()
}

/// Whether the parts spell a numeral: one part without a mark that is a decimal
/// numeral without leading zeros and fits 64 bits.
pub open spec fn is_number(parts: Seq<PartView>) -> bool {
    &&& parts.len() == 1
    &&& !parts[0].indexed
    &&& is_decimal(parts[0].path)
    &&& (parts[0].path.len() == 1 || parts[0].path[0] != '0')
    &&& decimal_value(parts[0].path) <= u64::MAX
}

/// What a name stands for: the clock, a numeral, or a storage node.
pub open spec fn classified(parts: Seq<PartView>) -> Tree {
    if is_clock(parts) {
        Tree::Timestamp
    } else if is_number(parts) {
        Tree::Literal(decimal_value(parts[0].path) as u64)
    } else {
        Tree::Variable(parts)
    }
}

impl Tree {
    /// Whether the tree is one that the grammar gives: a name is a name that spells
    /// neither the clock nor a numeral, and what stands left of an operator is no
    /// operator expression itself.
    pub open spec fn wf(self) -> bool
        decreases self,
    {
        match self {
            Tree::Variable(parts) => is_name(parts) && !is_clock(parts) && !is_number(parts),
            Tree::Timestamp => true,
            Tree::FunctionCall(_, arg) => arg.wf(),
            Tree::Operator(_, left, right) => !(*left is Operator) && left.wf() && right.wf(),
            Tree::Literal(_) => true,
            Tree::Group(inner) => inner.wf(),
        }
    }

    /// The expression as it is written.
    pub open spec fn render(self) -> Seq<char>
        decreases self,
    {
        match self {
            Tree::Variable(parts) => name_text(parts),
            Tree::Timestamp => timestamp_text(),
            Tree::FunctionCall(f, arg) => func_text(f) + seq!['('] + arg.render() + seq![')'],
            Tree::Operator(op, left, right) => left.render() + seq![op_char(op)] + right.render(),
            Tree::Literal(n) => decimal_text(n as nat),
            Tree::Group(inner) => seq!['('] + inner.render() + seq![')'],
        }
    }
}

} // verus!
