use std::collections::HashMap;
use vstd::prelude::*;
use vstd::std_specs::hash::*;
use vstd::string::*;
use crate::address::{is_slot, slot_bytes};
use crate::ast_node::{
    first_text, kind_of, labels, lemma_value_type_shorter, value_type_of, ASTNode,
    MemberDescriptor,
};
use crate::text::same_text;
use crate::type_kind::TypeKind;
use crate::error::{ConfigError, EvaluationError, ExtractError, InvariantError};
use crate::config_util::{constraint_id, texts};
use crate::executable::{
    joined, node_views, path_of, same_texts, Executable, NodeView, PathStyle,
};
use crate::executable::keys_of;
use crate::expression::ExpressionNode;
use crate::perf_expression_evaluator::{eval_spec, PerfExpressionEvaluator};
use crate::table::{entry_views, with_writes, writes_agree, TextTable};

verus! {

broadcast use group_hash_axioms;

/// The bounds hint of one class of collections: where its elements start and end.
#[derive(Clone, Debug, PartialEq, Eq)]
pub struct Constraint {
    pub cid: u32,
    /// The class path that the id was computed from.
    pub class_path: Vec<String>,
    pub from: Option<ExpressionNode>,
    pub to: Option<ExpressionNode>,
}

impl Constraint {
    /// A constraint without a class path or expressions yet.
    pub fn new(cid: u32) -> (c: Self)
        ensures
            c.cid == cid,
            c.class_path@.len() == 0,
            c.from is None,
            c.to is None,
    {
        Self { cid, class_path: Vec::new(), from: None, to: None }
    }
}

/// Whether a node of the given identity is among `v`.
pub open spec fn holds_id(v: Seq<NodeView>, id: u64) -> bool {
    exists|k: int| 0 <= k < v.len() && (#[trigger] v[k]).id == id
}

/// Whether no two nodes of `v` share an identity.
pub open spec fn ids_distinct(v: Seq<NodeView>) -> bool {
    forall|i: int, j: int| 0 <= i < j < v.len() ==> (#[trigger] v[i]).id != (#[trigger] v[j]).id
}

/// Nodes in order of arrival, no two with the same identity, and an index from
/// identity to position.
#[derive(Clone, Debug)]
pub struct NodeList {
    pub nodes: Vec<Executable>,
    pub index: HashMap<u64, usize>,
}

impl View for NodeList {
    type V = Seq<NodeView>;

    open spec fn view(&self) -> Seq<NodeView> {
        node_views(self.nodes@)
    }
}

impl NodeList {
    /// Whether the index holds exactly the positions of the nodes.
    pub open spec fn wf(&self) -> bool {
        &&& forall|k: int|
            0 <= k < self.nodes@.len() ==> self.index@.contains_key((#[trigger] self.nodes@[k]).id)
                && self.index@[self.nodes@[k].id] == k
        &&& forall|id: u64| #[trigger]
            self.index@.contains_key(id) ==> self.index@[id] < self.nodes@.len()
                && self.nodes@[self.index@[id] as int].id == id
    }

    /// The identities of a well-formed list are distinct.
    pub proof fn lemma_distinct(&self)
        requires
            self.wf(),
        ensures
            ids_distinct(self@),
    {
        assert forall|i: int, j: int| 0 <= i < j < self@.len() implies (#[trigger] self@[i]).id != (
        #[trigger] self@[j]).id by {
            assert(self@[i].id == self.nodes@[i].id);
            assert(self@[j].id == self.nodes@[j].id);
        }
    }

    /// An empty list.
    pub fn new() -> (l: Self)
        ensures
            l.wf(),
            l@ == Seq::<NodeView>::empty(),
    {
        let l = NodeList { nodes: Vec::new(), index: HashMap::new() };
        assert(l@ =~= Seq::<NodeView>::empty());
        l
    }

    /// The position of the node with the given identity, if the list holds one.
    pub fn find(&self, id: u64) -> (r: Option<usize>)
        requires
            self.wf(),
        ensures
            match r {
                Some(k) => k < self@.len() && self@[k as int].id == id,
                None => !holds_id(self@, id),
            },
    {
        match self.index.get(&id) {
            Some(k) => {
                assert(self@[*k as int].id == self.nodes@[*k as int].id);
                Some(*k)
            },
            None => {
                assert forall|k: int| 0 <= k < self@.len() implies (#[trigger] self@[k]).id
                    != id by {
                    assert(self@[k].id == self.nodes@[k].id);
                }
                None
            },
        }
    }

    /// Whether the list holds the node: `Some(true)` where it holds the very node,
    /// `Some(false)` where it holds a different node of the same identity, `None`
    /// where it holds no node of that identity.
    pub fn holds(&self, node: &Executable) -> (r: Option<bool>)
        requires
            self.wf(),
        ensures
            match r {
                Some(true) => self@.contains(node@),
                Some(false) => holds_id(self@, node.id) && !self@.contains(node@),
                None => !holds_id(self@, node.id),
            },
    {
        match self.find(node.id) {
            Some(k) => {
                proof {
                    self.lemma_distinct();
                }
                if self.nodes[k].same_as(node) {
                    assert(self@[k as int] == node@);
                    Some(true)
                } else {
                    proof {
                        if self@.contains(node@) {
                            let j = choose|j: int| 0 <= j < self@.len() && self@[j] == node@;
                            assert(self@[j].id == self@[k as int].id);
                        }
                    }
                    Some(false)
                }
            },
            None => None,
        }
    }

    /// Puts a copy of the node behind the others where its identity is new. Gives
    /// `Some(true)` where it did, `Some(false)` where the list holds the very node
    /// already, and `None`, leaving the list alone, where it holds a different node
    /// of that identity.
    pub fn add(&mut self, node: &Executable) -> (r: Option<bool>)
        requires
            old(self).wf(),
        ensures
            final(self).wf(),
            match r {
                Some(true) => {
                    &&& !holds_id(old(self)@, node.id)
                    &&& final(self)@ == old(self)@.push(node@)
                },
                Some(false) => old(self)@.contains(node@) && final(self)@ == old(self)@,
                None => {
                    &&& holds_id(old(self)@, node.id)
                    &&& !old(self)@.contains(node@)
                    &&& final(self)@ == old(self)@
                },
            },
    {
        match self.find(node.id) {
            Some(k) => {
                proof {
                    self.lemma_distinct();
                }
                if self.nodes[k].same_as(node) {
                    assert(self@[k as int] == node@);
                    Some(false)
                } else {
                    proof {
                        if self@.contains(node@) {
                            let j = choose|j: int| 0 <= j < self@.len() && self@[j] == node@;
                            assert(self@[j].id == self@[k as int].id);
                        }
                    }
                    None
                }
            },
            None => {
                self.push(node.duplicate());
                Some(true)
            },
        }
    }

    /// Cuts the list down to its first `len` nodes.
    pub fn truncate(&mut self, len: usize)
        requires
            old(self).wf(),
            len <= old(self)@.len(),
        ensures
            final(self).wf(),
            final(self)@ == old(self)@.take(len as int),
    {
        assert(self@.take(self@.len() as int) =~= self@);
        while self.nodes.len() > len
            invariant
                self.wf(),
                len <= self.nodes@.len() <= old(self)@.len(),
                self@ == old(self)@.take(self.nodes@.len() as int),
            decreases self.nodes.len(),
        {
            let ghost before = self.nodes@;
            let ghost held = self.index@;
            let last = self.nodes.len() - 1;
            let id = self.nodes[last].id;
            self.nodes.pop();
            self.index.remove(&id);
            proof {
                assert(self.nodes@ =~= before.take(last as int));
                assert(self@ =~= old(self)@.take(last as int));
                assert forall|k: int| 0 <= k < self.nodes@.len() implies self.index@.contains_key(
                    (#[trigger] self.nodes@[k]).id,
                ) && self.index@[self.nodes@[k].id] == k by {
                    assert(self.nodes@[k] == before[k]);
                    assert(held[before[k].id] == k);
                    assert(held[before[last as int].id] == last);
                }
                assert forall|key: u64| #[trigger] self.index@.contains_key(key) implies self.index@[key]
                    < self.nodes@.len() && self.nodes@[self.index@[key] as int].id == key by {
                    let at = held[key] as int;
                    assert(before[at].id == key);
                    assert(at != last);
                    assert(self.nodes@[at] == before[at]);
                }
            }
        }
    }

    /// Puts a node of a new identity behind the others.
    pub fn push(&mut self, node: Executable)
        requires
            old(self).wf(),
            !holds_id(old(self)@, node.id),
        ensures
            final(self).wf(),
            final(self)@ == old(self)@.push(node@),
    {
        let ghost before = self.nodes@;
        let id = node.id;
        let at = self.nodes.len();
        proof {
            if self.index@.contains_key(id) {
                let k = self.index@[id] as int;
                assert(old(self)@[k].id == before[k].id);
            }
        }
        self.index.insert(id, at);
        self.nodes.push(node);
        proof {
            assert(self@ =~= old(self)@.push(node@));
            assert forall|k: int| 0 <= k < self.nodes@.len() implies self.index@.contains_key(
                (#[trigger] self.nodes@[k]).id,
            ) && self.index@[self.nodes@[k].id] == k by {
                if k < before.len() {
                    assert(self.nodes@[k] == before[k]);
                    assert(old(self)@[k].id == before[k].id);
                }
            }
            assert forall|key: u64| #[trigger] self.index@.contains_key(key) implies self.index@[key]
                < self.nodes@.len() && self.nodes@[self.index@[key] as int].id == key by {
                if key != id {
                    let at = old(self).index@[key] as int;
                    assert(self.nodes@[at] == before[at]);
                }
            }
        }
    }
}

/// The queue of a step with repeated nodes merged: each node once, where it first
/// stands. `None` where two different nodes share an identity.
pub open spec fn merged(q: Seq<NodeView>) -> Option<Seq<NodeView>>
    decreases q.len(),
{
    if q.len() == 0 {
        Some(Seq::<NodeView>::empty())
    } else {
        match merged(q.drop_last()) {
            None => None,
            Some(acc) => if holds_id(acc, q.last().id) {
                if acc.contains(q.last()) {
                    Some(acc)
                } else {
                    None
                }
            } else {
                Some(acc.push(q.last()))
            },
        }
    }
}

/// The visited nodes after `nodes` are marked: each node of a new identity is put
/// behind the others, in order.
pub open spec fn marked(visited: Seq<NodeView>, nodes: Seq<NodeView>) -> Seq<NodeView>
    decreases nodes.len(),
{
    if nodes.len() == 0 {
        visited
    } else {
        let acc = marked(visited, nodes.drop_last());
        if holds_id(acc, nodes.last().id) {
            acc
        } else {
            acc.push(nodes.last())
        }
    }
}

/// Marking nodes puts nodes behind the visited ones and changes none of them.
pub proof fn lemma_marked_extends(visited: Seq<NodeView>, nodes: Seq<NodeView>)
    ensures
        marked(visited, nodes).len() >= visited.len(),
        marked(visited, nodes).take(visited.len() as int) == visited,
    decreases nodes.len(),
{
    if nodes.len() == 0 {
        assert(visited.take(visited.len() as int) =~= visited);
    } else {
        lemma_marked_extends(visited, nodes.drop_last());
        let acc = marked(visited, nodes.drop_last());
        assert(marked(visited, nodes).take(visited.len() as int) =~= acc.take(
            visited.len() as int,
        ));
    }
}

/// Whether the nodes can be emitted: none of their identities is among `output`, and
/// no two of them share one.
pub open spec fn fresh(output: Seq<NodeView>, nodes: Seq<NodeView>) -> bool {
    &&& ids_distinct(nodes)
    &&& forall|i: int| 0 <= i < nodes.len() ==> !holds_id(output, (#[trigger] nodes[i]).id)
}

/// The first position at or after `from` of a visited node with the given class
/// constraint id, or `visited.len()`.
pub open spec fn first_with_cid(visited: Seq<NodeView>, cid: u32, from: int) -> int
    decreases visited.len() - from,
{
    if from < 0 || from >= visited.len() {
        visited.len() as int
    } else if constraint_id(path_of(visited[from], PathStyle::Class)) == cid {
        from
    } else {
        first_with_cid(visited, cid, from + 1)
    }
}

/// The first position at or after `from` of a visited node with the given instance
/// path, or `visited.len()`.
pub open spec fn first_with_path(visited: Seq<NodeView>, path: Seq<Seq<char>>, from: int) -> int
    decreases visited.len() - from,
{
    if from < 0 || from >= visited.len() {
        visited.len() as int
    } else if path_of(visited[from], PathStyle::Instance) == path {
        from
    } else {
        first_with_path(visited, path, from + 1)
    }
}

/// Whether the schema below a type holds the given chain of member names, elements
/// of collections adding no name.
pub open spec fn type_has_path(types: ASTNode, ty: Seq<char>, path: Seq<Seq<char>>) -> bool
    decreases path.len(), ty.len(),
{
    if path.len() == 0 {
        true
    } else if kind_of(ty).iterish() {
        value_type_of(ty).len() < ty.len() && type_has_path(types, value_type_of(ty), path)
    } else if kind_of(ty) == TypeKind::NaiveStruct {
        let members = types.members_of(ty);
        let k = first_text(labels(members), path[0], 0);
        0 <= k < members.len() && type_has_path(types, members[k].type_str@, path.drop_first())
    } else {
        false
    }
}

/// The names of some nodes.
pub open spec fn names_of(nodes: Seq<NodeView>) -> Seq<Seq<char>> {
    nodes.map_values(|n: NodeView| n.name)
}

/// The first position at or after `from` of a constraint with the given id, or
/// `constraints.len()`.
pub open spec fn first_constraint(constraints: Seq<Constraint>, cid: u32, from: int) -> int
    decreases constraints.len() - from,
{
    if from < 0 || from >= constraints.len() {
        constraints.len() as int
    } else if constraints[from].cid == cid {
        from
    } else {
        first_constraint(constraints, cid, from + 1)
    }
}

/// How a failed evaluation is reported: a name that the schema does not hold is a
/// fault of the configuration.
pub open spec fn evaluation_fault(e: EvaluationError) -> ExtractError {
    match e {
        EvaluationError::UnknownName => ExtractError::Config(ConfigError::UnknownName),
        _ => ExtractError::Evaluation(e),
    }
}

/// What the registry holds, with every text as its characters.
pub struct RegistryView {
    pub queue: Seq<Seq<NodeView>>,
    pub visited: Seq<NodeView>,
    pub constraints: Seq<Constraint>,
    pub bounds: Map<u64, (u64, u64)>,
    pub output: Seq<NodeView>,
    pub types: ASTNode,
    pub roots: Seq<NodeView>,
    pub slots: Map<u64, Seq<char>>,
    pub values: Map<u64, Seq<char>>,
    pub times: Map<u64, (u64, u64)>,
}

/// The store of one run: the queues by step, the visited nodes, the slots and values
/// recorded for them, the resolved bounds, the emitted primitives, and the hint and
/// type tables they are computed from.
#[derive(Clone, Debug)]
pub struct Registry {
    pub queue_per_step: Vec<Vec<Executable>>,
    pub visited: NodeList,
    pub constraints: Vec<Constraint>,
    pub iterish_from_to: HashMap<u64, (u64, u64)>,
    pub output_flatten: NodeList,
    pub types: ASTNode,
    pub roots: Vec<Executable>,
    pub absolute_slots: TextTable,
    pub values: TextTable,
    /// For each node that has them, the times it was created and last updated.
    pub node_times: HashMap<u64, (u64, u64)>,
}

/// The views of the queues of all steps.
pub open spec fn queue_views(q: Seq<Vec<Executable>>) -> Seq<Seq<NodeView>> {
    q.map_values(|step: Vec<Executable>| node_views(step@))
}

/// Whether every text of the table has the shape of a slot.
pub open spec fn all_slots(m: Map<u64, Seq<char>>) -> bool {
    forall|id: u64| #[trigger] m.contains_key(id) ==> is_slot(m[id])
}

/// Whether every write gives a text that has the shape of a slot.
pub open spec fn writes_are_slots(entries: Seq<(u64, Seq<char>)>) -> bool {
    forall|i: int| 0 <= i < entries.len() ==> is_slot((#[trigger] entries[i]).1)
}

impl View for Registry {
    type V = RegistryView;

    open spec fn view(&self) -> RegistryView {
        RegistryView {
            queue: queue_views(self.queue_per_step@),
            visited: self.visited@,
            constraints: self.constraints@,
            bounds: self.iterish_from_to@,
            output: self.output_flatten@,
            types: self.types,
            roots: node_views(self.roots@),
            slots: self.absolute_slots@,
            values: self.values@,
            times: self.node_times@,
        }
    }
}

impl RegistryView {
    /// The nodes queued for a step; none for a step that has no queue yet.
    pub open spec fn queue_at(self, step: int) -> Seq<NodeView> {
        if 0 <= step < self.queue.len() {
            self.queue[step]
        } else {
            Seq::<NodeView>::empty()
        }
    }

    /// The queues with empty ones added up to and including `step`.
    pub open spec fn padded_queue(self, step: int) -> Seq<Seq<NodeView>> {
        if step < self.queue.len() {
            self.queue
        } else {
            self.queue + Seq::new(
                (step + 1 - self.queue.len()) as nat,
                |i: int| Seq::<NodeView>::empty(),
            )
        }
    }

    /// The registry with `nodes` put behind the queue of `step`.
    pub open spec fn enqueued(self, step: int, nodes: Seq<NodeView>) -> RegistryView {
        let padded = self.padded_queue(step);
        RegistryView { queue: padded.update(step, padded[step] + nodes), ..self }
    }

    /// Whether the schema holds the given class path: its first name is that of a
    /// root, and the rest is a chain of member names below the root's type.
    pub open spec fn knows(self, path: Seq<Seq<char>>) -> bool {
        let k = first_text(names_of(self.roots), path[0], 0);
        &&& path.len() > 0
        &&& 0 <= k < self.roots.len()
        &&& type_has_path(self.types, self.roots[k].fulltype, path.drop_first())
    }

    /// The bounds that the hint of a node's class gives for the node at the given
    /// time: the values of its `from` and `to` expressions, `from` first.
    ///
    /// Fails with `MissingHint` where no hint has the node's constraint id or the
    /// hint lacks an expression, and with what the evaluation of an expression fails
    /// with.
    pub open spec fn bounds_for(self, n: NodeView, timestamp: u64) -> Result<
        (u64, u64),
        ExtractError,
    > {
        let k = first_constraint(
            self.constraints,
            constraint_id(path_of(n, PathStyle::Class)) as u32,
            0,
        );
        if !(0 <= k < self.constraints.len()) {
            Err(ExtractError::Config(ConfigError::MissingHint))
        } else {
            match (self.constraints[k].from, self.constraints[k].to) {
                (Some(from), Some(to)) => match eval_spec(from@, self, keys_of(n), timestamp) {
                    Err(e) => Err(evaluation_fault(e)),
                    Ok(f) => match eval_spec(to@, self, keys_of(n), timestamp) {
                        Err(e) => Err(evaluation_fault(e)),
                        Ok(t) => Ok((f, t)),
                    },
                },
                _ => Err(ExtractError::Config(ConfigError::MissingHint)),
            }
        }
    }

    /// Whether the recorded texts have the shape of a slot and the lists hold each
    /// identity once.
    pub open spec fn wf(self) -> bool {
        &&& all_slots(self.slots)
        &&& all_slots(self.values)
        &&& ids_distinct(self.visited)
        &&& ids_distinct(self.output)
        &&& self.types.wf()
    }
}

/// Whether every write gives a text that has the shape of a slot.
fn all_slot_texts(entries: &Vec<(u64, String)>) -> (r: bool)
    ensures
        r == writes_are_slots(entry_views(entries@)),
{
    let ghost views = entry_views(entries@);
    let mut i: usize = 0;
    while i < entries.len()
        invariant
            i <= entries.len(),
            views == entry_views(entries@),
            forall|k: int| 0 <= k < i ==> is_slot((#[trigger] views[k]).1),
        decreases entries.len() - i,
    {
        assert(views[i as int].1 == entries@[i as int].1@);
        match slot_bytes(entries[i].1.as_str()) {
            Ok(_) => {},
            Err(_) => {
                return false;
            },
        }
        i += 1;
    }
    true
}

/// Records writes in a table of slot texts, or none of them where one is malformed
/// or disagrees with what is recorded.
fn record_texts(table: &mut TextTable, entries: &Vec<(u64, String)>) -> (r: Result<
    (),
    InvariantError,
>)
    requires
        all_slots(old(table)@),
    ensures
        all_slots(final(table)@),
        match r {
            Ok(()) => {
                &&& writes_are_slots(entry_views(entries@))
                &&& writes_agree(old(table)@, entry_views(entries@))
                &&& final(table)@ == with_writes(old(table)@, entry_views(entries@))
            },
            Err(InvariantError::MalformedSlot) => {
                &&& !writes_are_slots(entry_views(entries@))
                &&& final(table)@ == old(table)@
            },
            Err(InvariantError::DoubleWrite) => {
                &&& writes_are_slots(entry_views(entries@))
                &&& !writes_agree(old(table)@, entry_views(entries@))
                &&& final(table)@ == old(table)@
            },
            Err(_) => false,
        },
{
    if !all_slot_texts(entries) {
        return Err(InvariantError::MalformedSlot);
    }
    if !table.agrees(entries) {
        return Err(InvariantError::DoubleWrite);
    }
    table.record(entries);
    proof {
        lemma_writes_keep_slots(old(table)@, entry_views(entries@));
    }
    Ok(())
}

/// Writing slot texts into a table of slot texts leaves a table of slot texts.
proof fn lemma_writes_keep_slots(m: Map<u64, Seq<char>>, entries: Seq<(u64, Seq<char>)>)
    requires
        all_slots(m),
        writes_are_slots(entries),
    ensures
        all_slots(with_writes(m, entries)),
    decreases entries.len(),
{
    if entries.len() > 0 {
        let head = entries.drop_last();
        assert forall|i: int| 0 <= i < head.len() implies is_slot((#[trigger] head[i]).1) by {
            assert(head[i] == entries[i]);
        }
        lemma_writes_keep_slots(m, head);
        assert(is_slot(entries[entries.len() - 1].1));
    }
}

impl Registry {
    /// Whether the registry is in order: its view is, and its lists are indexed.
    pub open spec fn wf(&self) -> bool {
        &&& self@.wf()
        &&& self.visited.wf()
        &&& self.output_flatten.wf()
    }

    /// A registry for one run over the given type directory and hints, with nothing
    /// queued, visited or recorded.
    pub fn new(types: ASTNode, constraints: Vec<Constraint>) -> (r: Self)
        requires
            types.wf(),
        ensures
            r.wf(),
            r@.queue.len() == 0,
            r@.visited.len() == 0,
            r@.output.len() == 0,
            r@.roots.len() == 0,
            r@.constraints == constraints@,
            r@.types == types,
            r@.bounds == Map::<u64, (u64, u64)>::empty(),
            r@.slots == Map::<u64, Seq<char>>::empty(),
            r@.values == Map::<u64, Seq<char>>::empty(),
            r@.times == Map::<u64, (u64, u64)>::empty(),
    {
        let r = Self {
            queue_per_step: Vec::new(),
            visited: NodeList::new(),
            constraints,
            iterish_from_to: HashMap::new(),
            output_flatten: NodeList::new(),
            types,
            roots: Vec::new(),
            absolute_slots: TextTable::new(),
            values: TextTable::new(),
            node_times: HashMap::new(),
        };
        assert(r@.queue =~= Seq::<Seq<NodeView>>::empty());
        assert(r@.roots =~= Seq::<NodeView>::empty());
        r
    }

    /// Records the slots and the values of one read together: either all of them or,
    /// where a text is no 64-digit word or differs from one recorded before, none.
    pub fn record_read(&mut self, slots: &Vec<(u64, String)>, values: &Vec<(u64, String)>) -> (r:
        Result<(), InvariantError>)
        requires
            old(self).wf(),
        ensures
            final(self).wf(),
            match r {
                Ok(()) => {
                    &&& writes_are_slots(entry_views(slots@))
                    &&& writes_are_slots(entry_views(values@))
                    &&& writes_agree(old(self)@.slots, entry_views(slots@))
                    &&& writes_agree(old(self)@.values, entry_views(values@))
                    &&& final(self)@ == (RegistryView {
                        slots: with_writes(old(self)@.slots, entry_views(slots@)),
                        values: with_writes(old(self)@.values, entry_views(values@)),
                        ..old(self)@
                    })
                },
                Err(InvariantError::MalformedSlot) => {
                    &&& !writes_are_slots(entry_views(slots@)) || !writes_are_slots(
                        entry_views(values@),
                    )
                    &&& final(self)@ == old(self)@
                },
                Err(InvariantError::DoubleWrite) => {
                    &&& writes_are_slots(entry_views(slots@))
                    &&& writes_are_slots(entry_views(values@))
                    &&& !writes_agree(old(self)@.slots, entry_views(slots@)) || !writes_agree(
                        old(self)@.values,
                        entry_views(values@),
                    )
                    &&& final(self)@ == old(self)@
                },
                Err(_) => false,
            },
    {
        if !all_slot_texts(slots) || !all_slot_texts(values) {
            return Err(InvariantError::MalformedSlot);
        }
        if !self.absolute_slots.agrees(slots) || !self.values.agrees(values) {
            return Err(InvariantError::DoubleWrite);
        }
        self.absolute_slots.record(slots);
        self.values.record(values);
        proof {
            lemma_writes_keep_slots(old(self)@.slots, entry_views(slots@));
            lemma_writes_keep_slots(old(self)@.values, entry_views(values@));
        }
        Ok(())
    }

    /// Records absolute slots; where a slot is no slot text, or a node already has a
    /// different slot, nothing is recorded.
    pub fn bulk_set_absolute_slots(&mut self, absolute_slots: &Vec<(u64, String)>) -> (r: Result<
        (),
        InvariantError,
    >)
        requires
            old(self).wf(),
        ensures
            final(self).wf(),
            match r {
                Ok(()) => {
                    &&& writes_are_slots(entry_views(absolute_slots@))
                    &&& writes_agree(old(self)@.slots, entry_views(absolute_slots@))
                    &&& final(self)@ == (RegistryView {
                        slots: with_writes(old(self)@.slots, entry_views(absolute_slots@)),
                        ..old(self)@
                    })
                },
                Err(InvariantError::MalformedSlot) => {
                    &&& !writes_are_slots(entry_views(absolute_slots@))
                    &&& final(self)@ == old(self)@
                },
                Err(InvariantError::DoubleWrite) => {
                    &&& writes_are_slots(entry_views(absolute_slots@))
                    &&& !writes_agree(old(self)@.slots, entry_views(absolute_slots@))
                    &&& final(self)@ == old(self)@
                },
                Err(_) => false,
            },
    {
        record_texts(&mut self.absolute_slots, absolute_slots)
    }

    /// Records values read; where a value is no 64-digit word, or a node already has
    /// a different value, nothing is recorded.
    pub fn bulk_save_values(&mut self, values: &Vec<(u64, String)>) -> (r: Result<
        (),
        InvariantError,
    >)
        requires
            old(self).wf(),
        ensures
            final(self).wf(),
            match r {
                Ok(()) => {
                    &&& writes_are_slots(entry_views(values@))
                    &&& writes_agree(old(self)@.values, entry_views(values@))
                    &&& final(self)@ == (RegistryView {
                        values: with_writes(old(self)@.values, entry_views(values@)),
                        ..old(self)@
                    })
                },
                Err(InvariantError::MalformedSlot) => {
                    &&& !writes_are_slots(entry_views(values@))
                    &&& final(self)@ == old(self)@
                },
                Err(InvariantError::DoubleWrite) => {
                    &&& writes_are_slots(entry_views(values@))
                    &&& !writes_agree(old(self)@.values, entry_views(values@))
                    &&& final(self)@ == old(self)@
                },
                Err(_) => false,
            },
    {
        record_texts(&mut self.values, values)
    }

    /// Puts nodes behind the queue of a step, as they are: a node queued twice stays
    /// twice in the queue and is merged when the queue is read.
    pub fn bulk_enqueue_execution(&mut self, step: usize, executables: Vec<Executable>)
        requires
            old(self).wf(),
            step < usize::MAX,
        ensures
            final(self).wf(),
            final(self)@ == old(self)@.enqueued(step as int, node_views(executables@)),
    {
        let ghost before = self@;
        while self.queue_per_step.len() <= step
            invariant
                step < usize::MAX,
                self.wf(),
                self@ == (RegistryView { queue: self@.queue, ..before }),
                before.queue.len() <= self@.queue.len(),
                self@.queue.len() <= before.queue.len() || self@.queue.len() <= step + 1,
                forall|k: int| 0 <= k < before.queue.len() ==> self@.queue[k] == before.queue[k],
                forall|k: int|
                    before.queue.len() <= k < self@.queue.len() ==> self@.queue[k]
                        == Seq::<NodeView>::empty(),
            decreases step + 1 - self.queue_per_step.len(),
        {
            let ghost prev = self.queue_per_step@;
            self.queue_per_step.push(Vec::new());
            proof {
                let added = self.queue_per_step@[prev.len() as int];
                assert(node_views(added@) =~= Seq::<NodeView>::empty());
                assert(queue_views(self.queue_per_step@) =~= queue_views(prev).push(
                    Seq::<NodeView>::empty(),
                ));
            }
        }
        assert(self@.queue =~= before.padded_queue(step as int));
        let ghost padded = self.queue_per_step@;
        let mut moved = executables;
        let mut target = self.queue_per_step.remove(step);
        let ghost held = target@;
        target.append(&mut moved);
        assert(node_views(target@) =~= node_views(held) + node_views(executables@));
        self.queue_per_step.insert(step, target);
        proof {
            assert(queue_views(self.queue_per_step@) =~= queue_views(padded).update(
                step as int,
                queue_views(padded)[step as int] + node_views(executables@),
            ));
        }
    }

    /// Marks nodes as visited: each node of an identity not yet visited is put behind
    /// the visited nodes, in order.
    pub fn bulk_save_visited(&mut self, visited: &Vec<Executable>)
        requires
            old(self).wf(),
        ensures
            final(self).wf(),
            final(self)@ == (RegistryView {
                visited: marked(old(self)@.visited, node_views(visited@)),
                ..old(self)@
            }),
    {
        let ghost views = node_views(visited@);
        let mut i: usize = 0;
        while i < visited.len()
            invariant
                i <= visited.len(),
                views == node_views(visited@),
                self.wf(),
                self@ == (RegistryView {
                    visited: marked(old(self)@.visited, views.take(i as int)),
                    ..old(self)@
                }),
            decreases visited.len() - i,
        {
            proof {
                assert(views.take(i + 1).drop_last() =~= views.take(i as int));
                assert(views.take(i + 1).last() == visited@[i as int]@);
            }
            match self.visited.find(visited[i].id) {
                Some(_) => {},
                None => {
                    self.visited.push(visited[i].duplicate());
                    proof {
                        self.visited.lemma_distinct();
                    }
                },
            }
            i += 1;
        }
        assert(views.take(i as int) =~= views);
    }

    /// Emits primitive nodes to the output, in order; where one of them was emitted
    /// before, or two of them share an identity, nothing is emitted.
    pub fn set_primitives(&mut self, primitives: &Vec<Executable>) -> (r: Result<
        (),
        InvariantError,
    >)
        requires
            old(self).wf(),
        ensures
            final(self).wf(),
            match r {
                Ok(()) => {
                    &&& fresh(old(self)@.output, node_views(primitives@))
                    &&& final(self)@ == (RegistryView {
                        output: old(self)@.output + node_views(primitives@),
                        ..old(self)@
                    })
                },
                Err(InvariantError::DoubleWrite) => {
                    &&& !fresh(old(self)@.output, node_views(primitives@))
                    &&& final(self)@ == old(self)@
                },
                Err(_) => false,
            },
    {
        let ghost views = node_views(primitives@);
        let mut seen: HashMap<u64, usize> = HashMap::new();
        let mut i: usize = 0;
        while i < primitives.len()
            invariant
                i <= primitives.len(),
                views == node_views(primitives@),
                self.wf(),
                self@ == old(self)@,
                fresh(self@.output, views.take(i as int)),
                forall|k: u64| #[trigger]
                    seen@.contains_key(k) ==> seen@[k] < i && views[seen@[k] as int].id == k,
                forall|j: int| 0 <= j < i ==> seen@.contains_key((#[trigger] views[j]).id),
            decreases primitives.len() - i,
        {
            let id = primitives[i].id;
            assert(views[i as int].id == id);
            if self.output_flatten.find(id).is_some() {
                return Err(InvariantError::DoubleWrite);
            }
            match seen.get(&id) {
                Some(j) => {
                    assert(views[*j as int].id == views[i as int].id);
                    return Err(InvariantError::DoubleWrite);
                },
                None => {
                    seen.insert(id, i);
                },
            }
            proof {
                let next = views.take(i + 1);
                assert forall|a: int, b: int| 0 <= a < b < next.len() implies (#[trigger] next[a]).id
                    != (#[trigger] next[b]).id by {
                    if b < i {
                        assert(views.take(i as int)[a] == next[a]);
                        assert(views.take(i as int)[b] == next[b]);
                    } else {
                        assert(next[a] == views[a]);
                    }
                }
                assert forall|a: int| 0 <= a < next.len() implies !holds_id(
                    self@.output,
                    (#[trigger] next[a]).id,
                ) by {
                    if a < i {
                        assert(views.take(i as int)[a] == next[a]);
                    }
                }
            }
            i += 1;
        }
        assert(views.take(i as int) =~= views);
        let mut k: usize = 0;
        while k < primitives.len()
            invariant
                k <= primitives.len(),
                views == node_views(primitives@),
                fresh(old(self)@.output, views),
                self.wf(),
                self@ == (RegistryView {
                    output: old(self)@.output + views.take(k as int),
                    ..old(self)@
                }),
            decreases primitives.len() - k,
        {
            proof {
                let id = views[k as int].id;
                assert(!holds_id(old(self)@.output, id));
                if holds_id(self@.output, id) {
                    let j = choose|j: int| 0 <= j < self@.output.len() && self@.output[j].id == id;
                    if j < old(self)@.output.len() {
                        assert(old(self)@.output[j].id == id);
                    } else {
                        assert(views[j - old(self)@.output.len()].id == id);
                    }
                }
                assert(views.take(k + 1) =~= views.take(k as int).push(views[k as int]));
            }
            self.output_flatten.push(primitives[k].duplicate());
            proof {
                self.output_flatten.lemma_distinct();
                assert(self@.output =~= old(self)@.output + views.take(k + 1));
            }
            k += 1;
        }
        assert(views.take(k as int) =~= views);
        Ok(())
    }

    /// Records the bounds of a collection; fails, recording nothing, where bounds with
    /// other numbers are recorded for it already.
    pub fn record_bounds(&mut self, id: u64, from: u64, to: u64) -> (r: Result<
        (),
        InvariantError,
    >)
        requires
            old(self).wf(),
        ensures
            final(self).wf(),
            match r {
                Ok(()) => {
                    &&& old(self)@.bounds.contains_key(id) ==> old(self)@.bounds[id] == (from, to)
                    &&& final(self)@ == (RegistryView {
                        bounds: old(self)@.bounds.insert(id, (from, to)),
                        ..old(self)@
                    })
                },
                Err(InvariantError::DoubleWrite) => {
                    &&& old(self)@.bounds.contains_key(id)
                    &&& old(self)@.bounds[id] != (from, to)
                    &&& final(self)@ == old(self)@
                },
                Err(_) => false,
            },
    {
        match self.iterish_from_to.get(&id) {
            Some(held) => {
                if held.0 != from || held.1 != to {
                    return Err(InvariantError::DoubleWrite);
                }
            },
            None => {},
        }
        self.iterish_from_to.insert(id, (from, to));
        Ok(())
    }

    /// Records when a node was created and last updated, in place of what was
    /// recorded for it.
    pub fn set_node_times(&mut self, id: u64, created_at: u64, updated_at: u64)
        requires
            old(self).wf(),
        ensures
            final(self).wf(),
            final(self)@ == (RegistryView {
                times: old(self)@.times.insert(id, (created_at, updated_at)),
                ..old(self)@
            }),
    {
        self.node_times.insert(id, (created_at, updated_at));
    }

    /// The members that the type directory declares for a type name.
    pub fn visit_ast(&self, fulltype: &str) -> (r: Option<&Vec<MemberDescriptor>>)
        requires
            self.wf(),
        ensures
            r is Some <==> self@.types.has(fulltype@),
            r matches Some(m) ==> m@ == self@.types.members_of(fulltype@),
    {
        self.types.get_node(fulltype)
    }

    /// The identity of the first visited node with the given constraint id.
    pub fn get_iid(&self, cid: u32) -> (r: Option<u64>)
        ensures
            match r {
                Some(id) => {
                    let k = first_with_cid(self@.visited, cid, 0);
                    k < self@.visited.len() && self@.visited[k].id == id
                },
                None => first_with_cid(self@.visited, cid, 0) >= self@.visited.len(),
            },
    {
        let mut i: usize = 0;
        while i < self.visited.nodes.len()
            invariant
                i <= self.visited.nodes.len(),
                first_with_cid(self@.visited, cid, 0) == first_with_cid(
                    self@.visited,
                    cid,
                    i as int,
                ),
            decreases self.visited.nodes.len() - i,
        {
            if self.visited.nodes[i].cid() == cid {
                return Some(self.visited.nodes[i].id);
            }
            i += 1;
        }
        None
    }

    /// The position of the first visited node with the given instance path.
    pub fn find_by_path(&self, path: &Vec<String>) -> (r: Option<usize>)
        ensures
            match r {
                Some(k) => k == first_with_path(self@.visited, texts(path@), 0) && k
                    < self@.visited.len(),
                None => first_with_path(self@.visited, texts(path@), 0) >= self@.visited.len(),
            },
    {
        let mut i: usize = 0;
        while i < self.visited.nodes.len()
            invariant
                i <= self.visited.nodes.len(),
                first_with_path(self@.visited, texts(path@), 0) == first_with_path(
                    self@.visited,
                    texts(path@),
                    i as int,
                ),
            decreases self.visited.nodes.len() - i,
        {
            let here = self.visited.nodes[i].instance_paths();
            if same_texts(&here, path) {
                return Some(i);
            }
            i += 1;
        }
        None
    }

    /// The queue of a step with repeated nodes merged; fails where two different
    /// nodes of the queue share an identity.
    pub fn queue_for(&self, step: usize) -> (r: Result<Vec<Executable>, ConfigError>)
        requires
            self.wf(),
        ensures
            match r {
                Ok(q) => merged(self@.queue_at(step as int)) == Some(node_views(q@)),
                Err(e) => e == ConfigError::Collision && merged(self@.queue_at(step as int))
                    is None,
            },
    {
        let mut list = NodeList::new();
        if step >= self.queue_per_step.len() {
            return Ok(list.nodes);
        }
        let queue = &self.queue_per_step[step];
        let ghost views = node_views(queue@);
        assert(self@.queue_at(step as int) == views);
        let mut i: usize = 0;
        while i < queue.len()
            invariant
                i <= queue.len(),
                views == node_views(queue@),
                self@.queue_at(step as int) == views,
                list.wf(),
                merged(views.take(i as int)) == Some(list@),
            decreases queue.len() - i,
        {
            proof {
                assert(views.take(i + 1).drop_last() =~= views.take(i as int));
                assert(views.take(i + 1).last() == queue@[i as int]@);
            }
            match list.add(&queue[i]) {
                Some(_) => {},
                None => {
                    proof {
                        assert(merged(views.take(i + 1)) is None);
                        lemma_merged_fails_on(views, i + 1);
                    }
                    return Err(ConfigError::Collision);
                },
            }
            i += 1;
        }
        assert(views.take(i as int) =~= views);
        Ok(list.nodes)
    }
}

/// The emitted primitives as pairs of instance path and value: for each emitted
/// node, in order, its instance path with dots between the parts, and the word
/// recorded for it, or an empty text where none is.
pub open spec fn output_pairs(reg: RegistryView) -> Seq<(Seq<char>, Seq<char>)> {
    reg.output.map_values(
        |n: NodeView|
            (
                joined(path_of(n, PathStyle::Instance), seq!['.']),
                if reg.values.contains_key(n.id) {
                    reg.values[n.id]
                } else {
                    Seq::<char>::empty()
                },
            ),
    )
}

/// The views of pairs of texts.
pub open spec fn pair_views(v: Seq<(String, String)>) -> Seq<(Seq<char>, Seq<char>)> {
    v.map_values(|e: (String, String)| (e.0@, e.1@))
}

impl Registry {
    /// The result of a run: each emitted primitive's instance path and value, in the
    /// order of emission.
    pub fn get_output_flatten(&self) -> (out: Vec<(String, String)>)
        ensures
            pair_views(out@) == output_pairs(self@),
    {
        let mut out: Vec<(String, String)> = Vec::new();
        let mut i: usize = 0;
        while i < self.output_flatten.nodes.len()
            invariant
                i <= self.output_flatten.nodes.len(),
                out@.len() == i,
                forall|k: int|
                    0 <= k < i ==> ((#[trigger] out@[k]).0@, out@[k].1@) == output_pairs(self@)[k],
            decreases self.output_flatten.nodes.len() - i,
        {
            let node = &self.output_flatten.nodes[i];
            proof {
                reveal_strlit(".");
                assert("."@ =~= seq!['.']);
                assert(self@.output[i as int] == node@);
                assert(node@.id == node.id);
            }
            let value = match self.values.get(node.id) {
                Some(word) => word.clone(),
                None => String::new(),
            };
            out.push((node.fullname(), value));
            i += 1;
        }
        assert(pair_views(out@) =~= output_pairs(self@));
        out
    }
}

/// The position of the first member with the given label.
fn member_position(members: &Vec<MemberDescriptor>, label: &str) -> (i: usize)
    ensures
        i == first_text(labels(members@), label@, 0),
        i <= members.len(),
{
    let mut i: usize = 0;
    while i < members.len()
        invariant
            i <= members.len(),
            first_text(labels(members@), label@, 0) == first_text(
                labels(members@),
                label@,
                i as int,
            ),
        decreases members.len() - i,
    {
        if same_text(members[i].label.as_str(), label) {
            return i;
        }
        i += 1;
    }
    i
}

/// How a failed evaluation is reported.
pub fn fault_of(e: EvaluationError) -> (r: ExtractError)
    ensures
        r == evaluation_fault(e),
{
    match e {
        EvaluationError::UnknownName => ExtractError::Config(ConfigError::UnknownName),
        _ => ExtractError::Evaluation(e),
    }
}

impl Registry {
    /// Evaluates the bounds hint of a node's class for the node: the values of its
    /// `from` and `to` expressions.
    pub fn eval_config(&self, e: &Executable, timestamp: u64) -> (r: Result<
        (u64, u64),
        ExtractError,
    >)
        requires
            self.wf(),
        ensures
            r == self@.bounds_for(e@, timestamp),
    {
        let cid = e.cid();
        let mut k: usize = 0;
        while k < self.constraints.len()
            invariant
                k <= self.constraints.len(),
                first_constraint(self@.constraints, cid, 0) == first_constraint(
                    self@.constraints,
                    cid,
                    k as int,
                ),
            ensures
                k == first_constraint(self@.constraints, cid, 0),
                k <= self.constraints.len(),
            decreases self.constraints.len() - k,
        {
            if self.constraints[k].cid == cid {
                break ;
            }
            k += 1;
        }
        if k >= self.constraints.len() {
            return Err(ExtractError::Config(ConfigError::MissingHint));
        }
        let constraint = &self.constraints[k];
        match (&constraint.from, &constraint.to) {
            (Some(from), Some(to)) => {
                let f = match PerfExpressionEvaluator::evaluate_expression(
                    from,
                    e,
                    self,
                    timestamp,
                ) {
                    Ok(f) => f,
                    Err(err) => {
                        return Err(fault_of(err));
                    },
                };
                match PerfExpressionEvaluator::evaluate_expression(to, e, self, timestamp) {
                    Ok(t) => Ok((f, t)),
                    Err(err) => Err(fault_of(err)),
                }
            },
            _ => Err(ExtractError::Config(ConfigError::MissingHint)),
        }
    }

    /// Whether the schema holds the given class path.
    pub fn knows(&self, path: &Vec<String>) -> (r: bool)
        requires
            self.wf(),
        ensures
            r == self@.knows(texts(path@)),
    {
        if path.len() == 0 {
            return false;
        }
        let ghost names = names_of(self@.roots);
        let ghost want = texts(path@);
        assert(want[0] == path@[0]@);
        let mut k: usize = 0;
        while k < self.roots.len()
            invariant
                k <= self.roots.len(),
                names == names_of(self@.roots),
                want == texts(path@),
                path.len() > 0,
                first_text(names, want[0], 0) == first_text(names, want[0], k as int),
            ensures
                k == first_text(names, want[0], 0),
                k <= self.roots.len(),
            decreases self.roots.len() - k,
        {
            assert(names[k as int] == self.roots@[k as int].name@);
            if same_text(self.roots[k].name.as_str(), path[0].as_str()) {
                break ;
            }
            k += 1;
        }
        if k >= self.roots.len() {
            return false;
        }
        assert(self@.roots[k as int].fulltype == self.roots@[k as int].fulltype@);
        let mut current: String = self.roots[k].fulltype.clone();
        let mut at: usize = 1;
        assert(want.skip(1) =~= want.drop_first());
        loop
            invariant
                self.wf(),
                want == texts(path@),
                1 <= at <= path.len(),
                self@.knows(want) == type_has_path(self@.types, current@, want.skip(at as int)),
            decreases path.len() - at, current@.len(),
        {
            if at == path.len() {
                return true;
            }
            let ghost rest = want.skip(at as int);
            assert(rest[0] == path@[at as int]@);
            let kind = ASTNode::type_kind(current.as_str());
            if kind.is_iterish() {
                proof {
                    lemma_value_type_shorter(current@);
                }
                let parsed = ASTNode::parse_type_str(current.as_str());
                current = parsed.value_type;
            } else if kind == TypeKind::NaiveStruct {
                let members = match self.types.get_node(current.as_str()) {
                    Some(m) => m,
                    None => {
                        return false;
                    },
                };
                let i = member_position(members, path[at].as_str());
                if i >= members.len() {
                    return false;
                }
                assert(rest.drop_first() =~= want.skip(at + 1));
                current = members[i].type_str.clone();
                at += 1;
            } else {
                return false;
            }
        }
    }
}

/// Where merging a part of a queue fails, merging the whole queue fails.
proof fn lemma_merged_fails_on(q: Seq<NodeView>, k: int)
    requires
        0 <= k <= q.len(),
        merged(q.take(k)) is None,
    ensures
        merged(q) is None,
    decreases q.len() - k,
{
    if k == q.len() {
        assert(q.take(k) =~= q);
    } else {
        assert(q.take(k + 1).drop_last() =~= q.take(k));
        lemma_merged_fails_on(q, k + 1);
    }
}

} // verus!
