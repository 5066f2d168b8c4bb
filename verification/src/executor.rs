use vstd::prelude::*;
use vstd::std_specs::hash::*;
use vstd::string::*;
use crate::ast_node::descriptor_fault;
use crate::config_util::{constraint_id, texts};
use crate::error::{ConfigError, EvaluationError, ExtractError, InvariantError, ReadError};
use crate::executable::{
    children_of, element_child, joined, node_views, path_of, slot_of, Executable, NodeView,
    PathStyle,
};
use crate::registry::{
    fresh, holds_id, lemma_marked_extends, marked, merged, writes_are_slots, Registry,
    RegistryView,
};
use crate::table::{
    entry_keys, entry_views, lemma_with_writes_domain, lemma_with_writes_keeps,
    lemma_writes_undone, with_writes, writes_agree,
};
use crate::text::{decimal_string, decimal_text, decimal_value, lemma_decimal_round_trip};
use crate::type_kind::TypeKind;

verus! {

broadcast use group_hash_axioms;

/// Why a run stopped, at which step, and for which node.
#[derive(Clone, Debug, PartialEq, Eq)]
pub struct Failure {
    pub error: ExtractError,
    pub step: usize,
    /// The instance path of the node at fault; empty where no single node is.
    pub path: String,
    /// The constraint id of that node; 0 where no single node is at fault.
    pub cid: u32,
}

/// A failure with its path as characters.
pub struct FailureView {
    pub error: ExtractError,
    pub step: usize,
    pub path: Seq<char>,
    pub cid: u32,
}

impl View for Failure {
    type V = FailureView;

    open spec fn view(&self) -> FailureView {
        FailureView { error: self.error, step: self.step, path: self.path@, cid: self.cid }
    }
}

/// The failure of a step for a node.
pub open spec fn failure_at(error: ExtractError, step: usize, n: NodeView) -> FailureView {
    FailureView {
        error,
        step,
        path: joined(path_of(n, PathStyle::Instance), seq!['.']),
        cid: constraint_id(path_of(n, PathStyle::Class)) as u32,
    }
}

/// The failure of a step for which no single node is at fault.
pub open spec fn failure_of_step(error: ExtractError, step: usize) -> FailureView {
    FailureView { error, step, path: Seq::<char>::empty(), cid: 0 }
}

/// For a node of the queue, what is to be read: `None` for a node that is visited
/// already, else the slot recorded for it or, where none is, the slot computed from
/// its parent's. Fails where a different node of the same identity is visited.
pub open spec fn read_of(reg: RegistryView, n: NodeView) -> Result<Option<Seq<char>>, ExtractError> {
    if holds_id(reg.visited, n.id) {
        if reg.visited.contains(n) {
            Ok(None)
        } else {
            Err(ExtractError::Config(ConfigError::Collision))
        }
    } else if reg.slots.contains_key(n.id) {
        Ok(Some(reg.slots[n.id]))
    } else {
        match slot_of(n, reg.slots) {
            Ok(s) => Ok(Some(s)),
            Err(e) => Err(ExtractError::Invariant(e)),
        }
    }
}

/// The batch to read for a queue: identity and slot of each node that is not visited
/// yet, in queue order. Fails with the fault of the first node that has one, and
/// the node's position.
pub open spec fn batch_of(reg: RegistryView, queue: Seq<NodeView>) -> Result<
    Seq<(u64, Seq<char>)>,
    (ExtractError, int),
>
    decreases queue.len(),
{
    if queue.len() == 0 {
        Ok(Seq::<(u64, Seq<char>)>::empty())
    } else {
        match batch_of(reg, queue.drop_last()) {
            Err(e) => Err(e),
            Ok(batch) => match read_of(reg, queue.last()) {
                Err(e) => Err((e, queue.len() - 1)),
                Ok(None) => Ok(batch),
                Ok(Some(slot)) => Ok(batch.push((queue.last().id, slot))),
            },
        }
    }
}

/// The batch to read at a step.
pub open spec fn address_spec(reg: RegistryView, step: usize) -> Result<
    Seq<(u64, Seq<char>)>,
    FailureView,
> {
    match merged(reg.queue_at(step as int)) {
        None => Err(failure_of_step(ExtractError::Config(ConfigError::Collision), step)),
        Some(queue) => match batch_of(reg, queue) {
            Ok(batch) => Ok(batch),
            Err((e, k)) => Err(failure_at(e, step, queue[k])),
        },
    }
}

/// The registry after the values read at a step are recorded: the slots of the
/// batch, the values, and the nodes of the queue as visited.
///
/// Fails, on a response that does not give a value for each entry of the batch in
/// order, with `Malformed`; else on a slot or value that is no 64-digit word with
/// `MalformedSlot`; else on a slot or value that differs from one recorded before
/// with `DoubleWrite`.
pub open spec fn commit_spec(reg: RegistryView, step: usize, values: Seq<(u64, Seq<char>)>) -> Result<
    RegistryView,
    FailureView,
> {
    match address_spec(reg, step) {
        Err(f) => Err(f),
        Ok(batch) => if entry_keys(values) != entry_keys(batch) {
            Err(failure_of_step(ExtractError::Read(ReadError::Malformed), step))
        } else if !writes_are_slots(batch) || !writes_are_slots(values) {
            Err(failure_of_step(ExtractError::Invariant(InvariantError::MalformedSlot), step))
        } else if !writes_agree(reg.slots, batch) || !writes_agree(reg.values, values) {
            Err(failure_of_step(ExtractError::Invariant(InvariantError::DoubleWrite), step))
        } else {
            Ok(
                RegistryView {
                    slots: with_writes(reg.slots, batch),
                    values: with_writes(reg.values, values),
                    visited: marked(reg.visited, merged(reg.queue_at(step as int))->0),
                    ..reg
                },
            )
        },
    }
}

/// What the classification of a queue asks to be written.
#[derive(Clone, Debug, PartialEq, Eq)]
pub struct Plan {
    /// The primitive nodes to emit.
    pub primitives: Vec<Executable>,
    /// The bounds that were resolved, by node identity.
    pub bounds: Vec<(u64, (u64, u64))>,
    /// The nodes for the queue of the next step.
    pub next: Vec<Executable>,
}

/// A plan with its nodes as views.
pub struct PlanView {
    pub primitives: Seq<NodeView>,
    pub bounds: Seq<(u64, (u64, u64))>,
    pub next: Seq<NodeView>,
}

impl View for Plan {
    type V = PlanView;

    open spec fn view(&self) -> PlanView {
        PlanView {
            primitives: node_views(self.primitives@),
            bounds: self.bounds@,
            next: node_views(self.next@),
        }
    }
}

impl PlanView {
    /// The plan that asks for nothing.
    pub open spec fn empty() -> PlanView {
        PlanView {
            primitives: Seq::<NodeView>::empty(),
            bounds: Seq::<(u64, (u64, u64))>::empty(),
            next: Seq::<NodeView>::empty(),
        }
    }

    /// This plan followed by another.
    pub open spec fn followed_by(self, other: PlanView) -> PlanView {
        PlanView {
            primitives: self.primitives + other.primitives,
            bounds: self.bounds + other.bounds,
            next: self.next + other.next,
        }
    }
}

/// The keys of the elements of a collection with the given bounds: the decimal
/// numerals of `from`, `from + 1`, up to but not including `to`.
pub open spec fn index_keys(from: u64, to: u64) -> Seq<Seq<char>> {
    Seq::new(
        (if to > from {
            to - from
        } else {
            0
        }) as nat,
        |i: int| decimal_text((from + i) as nat),
    )
}

/// The elements of a collection node with the given bounds.
pub open spec fn elements_of(reg: RegistryView, n: NodeView, bounds: (u64, u64)) -> Result<
    Seq<NodeView>,
    ExtractError,
> {
    match children_of(n, reg.types, Some(index_keys(bounds.0, bounds.1))) {
        Ok(c) => Ok(c),
        Err(e) => Err(ExtractError::Descriptor(e)),
    }
}

/// What one node of the queue asks for: a primitive to be emitted; a struct its
/// members to be queued; a collection with bounds its elements to be queued; a
/// collection without bounds its bounds to be evaluated and, where they resolve, to
/// be recorded and its elements queued, and where they do not resolve yet, the
/// collection itself to be queued again.
///
/// A node of any kind fails first with what is wrong with the description of its own
/// type: a primitive whose type the directory does not describe is not emitted.
pub open spec fn classify(reg: RegistryView, n: NodeView, timestamp: u64) -> Result<
    PlanView,
    ExtractError,
> {
    match descriptor_fault(reg.types, n.fulltype) {
        Some(e) => Err(ExtractError::Descriptor(e)),
        None => match n.type_kind {
            TypeKind::Primitive => Ok(PlanView { primitives: seq![n], ..PlanView::empty() }),
            TypeKind::NaiveStruct => match children_of(n, reg.types, None) {
                Ok(c) => Ok(PlanView { next: c, ..PlanView::empty() }),
                Err(e) => Err(ExtractError::Descriptor(e)),
            },
            _ => if reg.bounds.contains_key(n.id) {
                match elements_of(reg, n, reg.bounds[n.id]) {
                    Ok(c) => Ok(PlanView { next: c, ..PlanView::empty() }),
                    Err(e) => Err(e),
                }
            } else {
                match reg.bounds_for(n, timestamp) {
                    Ok(b) => match elements_of(reg, n, b) {
                        Ok(c) => Ok(
                            PlanView { bounds: seq![(n.id, b)], next: c, ..PlanView::empty() },
                        ),
                        Err(e) => Err(e),
                    },
                    Err(ExtractError::Evaluation(EvaluationError::Unresolved)) => Ok(
                        PlanView { next: seq![n], ..PlanView::empty() },
                    ),
                    Err(e) => Err(e),
                }
            },
        },
    }
}

/// What a queue asks for, node by node in queue order. Fails with the fault of the
/// first node that has one, and the node's position.
pub open spec fn plan_of(reg: RegistryView, queue: Seq<NodeView>, timestamp: u64) -> Result<
    PlanView,
    (ExtractError, int),
>
    decreases queue.len(),
{
    if queue.len() == 0 {
        Ok(PlanView::empty())
    } else {
        match plan_of(reg, queue.drop_last(), timestamp) {
            Err(e) => Err(e),
            Ok(plan) => match classify(reg, queue.last(), timestamp) {
                Err(e) => Err((e, queue.len() - 1)),
                Ok(part) => Ok(plan.followed_by(part)),
            },
        }
    }
}

/// The bounds table after the given bounds are recorded, one after the other.
pub open spec fn with_bounds(m: Map<u64, (u64, u64)>, entries: Seq<(u64, (u64, u64))>) -> Map<
    u64,
    (u64, u64),
>
    decreases entries.len(),
{
    if entries.len() == 0 {
        m
    } else {
        with_bounds(m, entries.drop_last()).insert(entries.last().0, entries.last().1)
    }
}

/// The registry after the queue of a step is classified: the primitives emitted, the
/// resolved bounds recorded, and the next step's nodes queued for step + 1.
///
/// Fails with the fault of the first node of the queue that has one, and with
/// `DoubleWrite` where a primitive of the queue was emitted before.
pub open spec fn reload_spec(reg: RegistryView, step: usize, timestamp: u64) -> Result<
    RegistryView,
    FailureView,
> {
    match merged(reg.queue_at(step as int)) {
        None => Err(failure_of_step(ExtractError::Config(ConfigError::Collision), step)),
        Some(queue) => match plan_of(reg, queue, timestamp) {
            Err((e, k)) => Err(failure_at(e, step, queue[k])),
            Ok(plan) => if !fresh(reg.output, plan.primitives) {
                Err(failure_of_step(ExtractError::Invariant(InvariantError::DoubleWrite), step))
            } else {
                Ok(
                    RegistryView {
                        output: reg.output + plan.primitives,
                        bounds: with_bounds(reg.bounds, plan.bounds),
                        ..reg
                    }.enqueued(step + 1, plan.next),
                )
            },
        },
    }
}

/// The registry after one whole step for which `values` were read: the read
/// recorded, then the queue classified and what it asks for written. A step that
/// fails leaves the registry as it was, so this gives either the registry after the
/// whole step or the failure, never a part of the step.
pub open spec fn step_result(
    reg: RegistryView,
    step: usize,
    values: Seq<(u64, Seq<char>)>,
    timestamp: u64,
) -> Result<RegistryView, FailureView> {
    match commit_spec(reg, step, values) {
        Err(f) => Err(f),
        Ok(read) => reload_spec(read, step, timestamp),
    }
}

/// The failure of a step for a node.
pub fn fail_at(error: ExtractError, step: usize, node: &Executable) -> (f: Failure)
    ensures
        f@ == failure_at(error, step, node@),
{
    proof {
        reveal_strlit(".");
        assert("."@ =~= seq!['.']);
    }
    Failure { error, step, path: node.fullname(), cid: node.cid() }
}

/// The failure of a step for which no single node is at fault.
pub fn fail_step(error: ExtractError, step: usize) -> (f: Failure)
    ensures
        f@ == failure_of_step(error, step),
{
    Failure { error, step, path: String::new(), cid: 0 }
}

/// The keys of the elements of a collection with the given bounds.
fn keys_between(from: u64, to: u64) -> (keys: Vec<String>)
    ensures
        texts(keys@) == index_keys(from, to),
{
    let mut keys: Vec<String> = Vec::new();
    let mut k: u64 = from;
    while k < to
        invariant
            from <= k,
            from < to ==> k <= to,
            from >= to ==> k == from,
            keys@.len() == k - from,
            forall|i: int|
                0 <= i < keys@.len() ==> (#[trigger] keys@[i])@ == decimal_text((from + i) as nat),
        decreases to - k,
    {
        keys.push(decimal_string(k));
        k += 1;
    }
    proof {
        let got = texts(keys@);
        let want = index_keys(from, to);
        assert(got.len() == want.len());
        assert forall|i: int| 0 <= i < got.len() implies got[i] == want[i] by {
            assert(got[i] == keys@[i]@);
        }
        assert(got =~= want);
    }
    keys
}

/// Whether two lists of writes name the same identities in the same order.
fn same_keys(a: &Vec<(u64, String)>, b: &Vec<(u64, String)>) -> (r: bool)
    ensures
        r == (entry_keys(entry_views(a@)) == entry_keys(entry_views(b@))),
{
    let ghost ka = entry_keys(entry_views(a@));
    let ghost kb = entry_keys(entry_views(b@));
    if a.len() != b.len() {
        assert(ka.len() != kb.len());
        return false;
    }
    let mut i: usize = 0;
    while i < a.len()
        invariant
            i <= a.len(),
            a.len() == b.len(),
            ka == entry_keys(entry_views(a@)),
            kb == entry_keys(entry_views(b@)),
            forall|k: int| 0 <= k < i ==> ka[k] == kb[k],
        decreases a.len() - i,
    {
        assert(ka[i as int] == a@[i as int].0 && kb[i as int] == b@[i as int].0);
        if a[i].0 != b[i].0 {
            return false;
        }
        i += 1;
    }
    assert(ka =~= kb);
    true
}

/// The driver of one step: what to read, what to record, what to queue next.
#[derive(Clone, Copy, Debug)]
pub struct Executor;

impl Executor {
    /// The address phase of a step: the identity and absolute slot of each node of
    /// the step's queue that is not visited yet, in queue order. This is the batch
    /// to read.
    pub fn address_phase(step: usize, registry: &Registry) -> (r: Result<
        Vec<(u64, String)>,
        Failure,
    >)
        requires
            registry.wf(),
        ensures
            match r {
                Ok(batch) => address_spec(registry@, step) == Ok::<
                    Seq<(u64, Seq<char>)>,
                    FailureView,
                >(entry_views(batch@)) && writes_are_slots(entry_views(batch@)),
                Err(f) => address_spec(registry@, step) == Err::<
                    Seq<(u64, Seq<char>)>,
                    FailureView,
                >(f@),
            },
    {
        let queue = match registry.queue_for(step) {
            Ok(q) => q,
            Err(_) => {
                return Err(fail_step(ExtractError::Config(ConfigError::Collision), step));
            },
        };
        let ghost views = node_views(queue@);
        let mut batch: Vec<(u64, String)> = Vec::new();
        let mut i: usize = 0;
        assert(entry_views(batch@) =~= Seq::<(u64, Seq<char>)>::empty());
        while i < queue.len()
            invariant
                i <= queue.len(),
                registry.wf(),
                views == node_views(queue@),
                merged(registry@.queue_at(step as int)) == Some(views),
                batch_of(registry@, views.take(i as int)) == Ok::<
                    Seq<(u64, Seq<char>)>,
                    (ExtractError, int),
                >(entry_views(batch@)),
                writes_are_slots(entry_views(batch@)),
            decreases queue.len() - i,
        {
            let node = &queue[i];
            proof {
                assert(views.take(i + 1).drop_last() =~= views.take(i as int));
                assert(views.take(i + 1).last() == node@);
                assert(node@.id == node.id);
            }
            let seen = registry.visited.holds(node);
            match seen {
                Some(true) => {},
                Some(false) => {
                    proof {
                        lemma_batch_fails_on(registry@, views, i + 1);
                    }
                    return Err(
                        fail_at(ExtractError::Config(ConfigError::Collision), step, node),
                    );
                },
                None => {
                    let slot = match registry.absolute_slots.get(node.id) {
                        Some(s) => s.clone(),
                        None => match node.calculate_absolute_slot(registry) {
                            Ok(s) => s,
                            Err(e) => {
                                proof {
                                    lemma_batch_fails_on(registry@, views, i + 1);
                                }
                                return Err(fail_at(ExtractError::Invariant(e), step, node));
                            },
                        },
                    };
                    let ghost before = entry_views(batch@);
                    batch.push((node.id, slot));
                    assert(entry_views(batch@) =~= before.push((node.id, slot@)));
                },
            }
            i += 1;
        }
        assert(views.take(i as int) =~= views);
        Ok(batch)
    }

    /// Records what was read at a step: the slots of the step's batch, the value
    /// read for each entry of the batch, and the nodes of the queue as visited.
    /// `values` names the identities of the batch in the order of the batch. Where
    /// this fails nothing is recorded. This is the first half of a step; `step` does
    /// both halves and takes this one back where the second fails.
    pub fn commit_read(step: usize, registry: &mut Registry, values: &Vec<(u64, String)>) -> (r:
        Result<(), Failure>)
        requires
            old(registry).wf(),
        ensures
            final(registry).wf(),
            match r {
                Ok(()) => commit_spec(old(registry)@, step, entry_views(values@)) == Ok::<
                    RegistryView,
                    FailureView,
                >(final(registry)@),
                Err(f) => commit_spec(old(registry)@, step, entry_views(values@)) == Err::<
                    RegistryView,
                    FailureView,
                >(f@) && final(registry)@ == old(registry)@,
            },
    {
        let batch = match Self::address_phase(step, registry) {
            Ok(b) => b,
            Err(f) => {
                return Err(f);
            },
        };
        if !same_keys(values, &batch) {
            return Err(fail_step(ExtractError::Read(ReadError::Malformed), step));
        }
        match registry.record_read(&batch, values) {
            Ok(()) => {},
            Err(e) => {
                return Err(fail_step(ExtractError::Invariant(e), step));
            },
        }
        match registry.queue_for(step) {
            Ok(queue) => {
                registry.bulk_save_visited(&queue);
            },
            Err(_) => {},
        }
        Ok(())
    }

    /// One whole step, after the batch of the step was read: records the read,
    /// classifies the queue, emits the primitives, records the bounds that resolved
    /// and queues the nodes of the next step. The writes of a step are one: where
    /// any part of the step fails, what the parts before it wrote is taken back, and
    /// the registry is left as it was before the step.
    pub fn step(step: usize, registry: &mut Registry, values: &Vec<(u64, String)>, timestamp: u64) -> (r:
        Result<(), Failure>)
        requires
            old(registry).wf(),
            step + 1 < usize::MAX,
        ensures
            final(registry).wf(),
            match r {
                Ok(()) => step_result(old(registry)@, step, entry_views(values@), timestamp) == Ok::<
                    RegistryView,
                    FailureView,
                >(final(registry)@),
                Err(f) => step_result(old(registry)@, step, entry_views(values@), timestamp)
                    == Err::<RegistryView, FailureView>(f@) && final(registry)@ == old(registry)@,
            },
    {
        let batch = match Self::address_phase(step, registry) {
            Ok(b) => b,
            Err(f) => {
                return Err(f);
            },
        };
        // What the recording of the read is about to add, so that it can be taken back.
        let added_slots = registry.absolute_slots.fresh_keys(&batch);
        let added_values = registry.values.fresh_keys(values);
        let seen = registry.visited.nodes.len();
        match Self::commit_read(step, registry, values) {
            Ok(()) => {},
            Err(f) => {
                return Err(f);
            },
        }
        match Self::bulk_exec_and_reload(step, registry, timestamp) {
            Ok(()) => Ok(()),
            Err(f) => {
                proof {
                    lemma_writes_undone(
                        old(registry)@.slots,
                        entry_views(batch@),
                        added_slots@,
                    );
                    lemma_writes_undone(
                        old(registry)@.values,
                        entry_views(values@),
                        added_values@,
                    );
                    lemma_marked_extends(
                        old(registry)@.visited,
                        merged(old(registry)@.queue_at(step as int))->0,
                    );
                }
                registry.absolute_slots.forget(&added_slots);
                registry.values.forget(&added_values);
                registry.visited.truncate(seen);
                Err(f)
            },
        }
    }

    /// Classifies the queue of a step against what the registry holds: which
    /// primitives to emit, which bounds resolved, and which nodes to queue next.
    pub fn plan(step: usize, registry: &Registry, timestamp: u64) -> (r: Result<Plan, Failure>)
        requires
            registry.wf(),
        ensures
            match (r, merged(registry@.queue_at(step as int))) {
                (Ok(p), Some(queue)) => plan_of(registry@, queue, timestamp) == Ok::<
                    PlanView,
                    (ExtractError, int),
                >(p@),
                (Err(f), Some(queue)) => plan_of(registry@, queue, timestamp) matches Err((e, k))
                    && f@ == failure_at(e, step, queue[k]),
                (Err(f), None) => f@ == failure_of_step(
                    ExtractError::Config(ConfigError::Collision),
                    step,
                ),
                (Ok(_), None) => false,
            },
    {
        let queue = match registry.queue_for(step) {
            Ok(q) => q,
            Err(_) => {
                return Err(fail_step(ExtractError::Config(ConfigError::Collision), step));
            },
        };
        let ghost views = node_views(queue@);
        let mut plan = Plan { primitives: Vec::new(), bounds: Vec::new(), next: Vec::new() };
        assert(plan@.primitives =~= Seq::<NodeView>::empty());
        assert(plan@.next =~= Seq::<NodeView>::empty());
        let mut i: usize = 0;
        while i < queue.len()
            invariant
                i <= queue.len(),
                registry.wf(),
                views == node_views(queue@),
                merged(registry@.queue_at(step as int)) == Some(views),
                plan_of(registry@, views.take(i as int), timestamp) == Ok::<
                    PlanView,
                    (ExtractError, int),
                >(plan@),
            decreases queue.len() - i,
        {
            let node = &queue[i];
            let ghost before = plan@;
            proof {
                assert(views.take(i + 1).drop_last() =~= views.take(i as int));
                assert(views.take(i + 1).last() == node@);
                assert(node@.id == node.id && node@.type_kind == node.type_kind);
                assert(node@.fulltype == node.fulltype@);
            }
            match registry.types.fault(node.fulltype.as_str()) {
                Some(e) => {
                    proof {
                        lemma_plan_fails_on(registry@, views, i + 1, timestamp);
                    }
                    return Err(fail_at(ExtractError::Descriptor(e), step, node));
                },
                None => {},
            }
            match node.type_kind {
                TypeKind::Primitive => {
                    plan.primitives.push(node.duplicate());
                    proof {
                        let part = PlanView { primitives: seq![node@], ..PlanView::empty() };
                        assert(plan@.primitives =~= before.followed_by(part).primitives);
                        assert(plan@.bounds =~= before.followed_by(part).bounds);
                        assert(plan@.next =~= before.followed_by(part).next);
                    }
                },
                TypeKind::NaiveStruct => {
                    let mut found = match node.children(registry, None) {
                        Ok(c) => c,
                        Err(e) => {
                            proof {
                                lemma_plan_fails_on(registry@, views, i + 1, timestamp);
                            }
                            return Err(fail_at(ExtractError::Descriptor(e), step, node));
                        },
                    };
                    let ghost part = PlanView { next: node_views(found@), ..PlanView::empty() };
                    plan.next.append(&mut found);
                    proof {
                        assert(plan@.primitives =~= before.followed_by(part).primitives);
                        assert(plan@.bounds =~= before.followed_by(part).bounds);
                        assert(plan@.next =~= before.followed_by(part).next);
                    }
                },
                _ => {
                    let known: Option<(u64, u64)> = match registry.iterish_from_to.get(&node.id) {
                        Some(b) => Some((b.0, b.1)),
                        None => None,
                    };
                    let resolved: Option<(u64, u64)> = match known {
                        Some(b) => Some(b),
                        None => match registry.eval_config(node, timestamp) {
                            Ok(b) => Some(b),
                            Err(ExtractError::Evaluation(EvaluationError::Unresolved)) => None,
                            Err(e) => {
                                proof {
                                    lemma_plan_fails_on(registry@, views, i + 1, timestamp);
                                }
                                return Err(fail_at(e, step, node));
                            },
                        },
                    };
                    match resolved {
                        None => {
                            plan.next.push(node.duplicate());
                            proof {
                                let part = PlanView { next: seq![node@], ..PlanView::empty() };
                                assert(plan@.primitives =~= before.followed_by(part).primitives);
                                assert(plan@.bounds =~= before.followed_by(part).bounds);
                                assert(plan@.next =~= before.followed_by(part).next);
                            }
                        },
                        Some(b) => {
                            let keys = keys_between(b.0, b.1);
                            let mut found = match node.children(registry, Some(keys)) {
                                Ok(c) => c,
                                Err(e) => {
                                    proof {
                                        lemma_plan_fails_on(registry@, views, i + 1, timestamp);
                                    }
                                    return Err(
                                        fail_at(ExtractError::Descriptor(e), step, node),
                                    );
                                },
                            };
                            let ghost part = if known is Some {
                                PlanView { next: node_views(found@), ..PlanView::empty() }
                            } else {
                                PlanView {
                                    bounds: seq![(node.id, b)],
                                    next: node_views(found@),
                                    ..PlanView::empty()
                                }
                            };
                            if known.is_none() {
                                plan.bounds.push((node.id, b));
                            }
                            plan.next.append(&mut found);
                            proof {
                                assert(plan@.primitives =~= before.followed_by(part).primitives);
                                assert(plan@.bounds =~= before.followed_by(part).bounds);
                                assert(plan@.next =~= before.followed_by(part).next);
                            }
                        },
                    }
                },
            }
            i += 1;
        }
        assert(views.take(i as int) =~= views);
        Ok(plan)
    }

    /// The second half of a step, after what was read is recorded: classifies the
    /// step's queue, emits its primitives, records the bounds that resolved, and
    /// queues, for the next step, the members of structs, the elements of collections
    /// with bounds, and again the collections whose bounds did not resolve yet.
    /// Where this fails the registry is left as it was, which is with the read of the
    /// step recorded; `step` does both halves as one.
    pub fn bulk_exec_and_reload(step: usize, registry: &mut Registry, timestamp: u64) -> (r:
        Result<(), Failure>)
        requires
            old(registry).wf(),
            step + 1 < usize::MAX,
        ensures
            final(registry).wf(),
            match r {
                Ok(()) => reload_spec(old(registry)@, step, timestamp) == Ok::<
                    RegistryView,
                    FailureView,
                >(final(registry)@),
                Err(f) => reload_spec(old(registry)@, step, timestamp) == Err::<
                    RegistryView,
                    FailureView,
                >(f@) && final(registry)@ == old(registry)@,
            },
    {
        let plan = match Self::plan(step, registry, timestamp) {
            Ok(p) => p,
            Err(f) => {
                return Err(f);
            },
        };
        match registry.set_primitives(&plan.primitives) {
            Ok(()) => {},
            Err(e) => {
                return Err(fail_step(ExtractError::Invariant(e), step));
            },
        }
        let mut i: usize = 0;
        while i < plan.bounds.len()
            invariant
                i <= plan.bounds.len(),
                registry.wf(),
                registry@ == (RegistryView {
                    output: old(registry)@.output + plan@.primitives,
                    bounds: with_bounds(old(registry)@.bounds, plan@.bounds.take(i as int)),
                    ..old(registry)@
                }),
            decreases plan.bounds.len() - i,
        {
            proof {
                assert(plan@.bounds.take(i + 1).drop_last() =~= plan@.bounds.take(i as int));
                assert(plan@.bounds.take(i + 1).last() == plan.bounds@[i as int]);
            }
            let entry = plan.bounds[i];
            registry.iterish_from_to.insert(entry.0, entry.1);
            i += 1;
        }
        assert(plan@.bounds.take(i as int) =~= plan@.bounds);
        registry.bulk_enqueue_execution(step + 1, plan.next);
        Ok(())
    }
}

/// The identities of a batch belong to nodes of the queue that are not visited.
pub proof fn lemma_batch_is_unvisited(reg: RegistryView, queue: Seq<NodeView>)
    requires
        batch_of(reg, queue) is Ok,
    ensures
        forall|i: int|
            0 <= i < batch_of(reg, queue)->Ok_0.len() ==> !holds_id(
                reg.visited,
                (#[trigger] batch_of(reg, queue)->Ok_0[i]).0,
            ) && holds_id(queue, batch_of(reg, queue)->Ok_0[i].0),
    decreases queue.len(),
{
    if queue.len() > 0 {
        let head = queue.drop_last();
        lemma_batch_is_unvisited(reg, head);
        let before = batch_of(reg, head)->Ok_0;
        let batch = batch_of(reg, queue)->Ok_0;
        assert forall|i: int| 0 <= i < batch.len() implies !holds_id(
            reg.visited,
            (#[trigger] batch[i]).0,
        ) && holds_id(queue, batch[i].0) by {
            if i < before.len() {
                assert(batch[i] == before[i]);
                let k = choose|k: int| 0 <= k < head.len() && head[k].id == before[i].0;
                assert(queue[k].id == batch[i].0);
            } else {
                assert(queue[queue.len() - 1].id == batch[i].0);
            }
        }
    }
}

/// Marking nodes keeps every node that was visited, and visits every node marked.
pub proof fn lemma_marked_holds(visited: Seq<NodeView>, nodes: Seq<NodeView>)
    ensures
        forall|id: u64| holds_id(visited, id) ==> holds_id(marked(visited, nodes), id),
        forall|id: u64| holds_id(nodes, id) ==> holds_id(marked(visited, nodes), id),
    decreases nodes.len(),
{
    if nodes.len() > 0 {
        let head = nodes.drop_last();
        lemma_marked_holds(visited, head);
        let acc = marked(visited, head);
        let out = marked(visited, nodes);
        assert forall|id: u64| holds_id(acc, id) implies holds_id(out, id) by {
            let k = choose|k: int| 0 <= k < acc.len() && acc[k].id == id;
            assert(out[k].id == id);
        }
        assert forall|id: u64| holds_id(nodes, id) implies holds_id(out, id) by {
            let k = choose|k: int| 0 <= k < nodes.len() && nodes[k].id == id;
            if k < head.len() {
                assert(head[k].id == id);
                assert(holds_id(head, id));
            } else if !holds_id(acc, id) {
                assert(out[out.len() - 1].id == id);
            }
        }
    }
}

/// A value is recorded only for a node whose slot is recorded: where that holds
/// before the read of a step is recorded, it holds after.
pub proof fn lemma_values_have_slots(reg: RegistryView, step: usize, values: Seq<(u64, Seq<char>)>)
    requires
        commit_spec(reg, step, values) is Ok,
        forall|id: u64| reg.values.contains_key(id) ==> reg.slots.contains_key(id),
    ensures
        forall|id: u64| #[trigger]
            commit_spec(reg, step, values)->Ok_0.values.contains_key(id) ==> commit_spec(
                reg,
                step,
                values,
            )->Ok_0.slots.contains_key(id),
{
    let batch = address_spec(reg, step)->Ok_0;
    let after = commit_spec(reg, step, values)->Ok_0;
    lemma_with_writes_domain(reg.slots, batch);
    lemma_with_writes_domain(reg.values, values);
    assert forall|id: u64| #[trigger] after.values.contains_key(id) implies after.slots.contains_key(
        id,
    ) by {
        assert(with_writes(reg.values, values).contains_key(id));
        if !reg.values.contains_key(id) {
            assert(entry_keys(values).contains(id));
            assert(entry_keys(batch).contains(id));
        }
        assert(with_writes(reg.slots, batch).contains_key(id));
    }
}

/// A slot or value that is recorded stays as it is: the recording of a read changes
/// no text that the registry held.
pub proof fn lemma_recorded_stays(reg: RegistryView, step: usize, values: Seq<(u64, Seq<char>)>)
    requires
        commit_spec(reg, step, values) is Ok,
    ensures
        forall|id: u64| #[trigger]
            reg.slots.contains_key(id) ==> commit_spec(reg, step, values)->Ok_0.slots.contains_key(
                id,
            ) && commit_spec(reg, step, values)->Ok_0.slots[id] == reg.slots[id],
        forall|id: u64| #[trigger]
            reg.values.contains_key(id) ==> commit_spec(
                reg,
                step,
                values,
            )->Ok_0.values.contains_key(id) && commit_spec(reg, step, values)->Ok_0.values[id]
                == reg.values[id],
{
    let batch = address_spec(reg, step)->Ok_0;
    lemma_with_writes_keeps(reg.slots, batch);
    lemma_with_writes_keeps(reg.values, values);
}

/// Single read: a node that was read at a step is in the batch of no later step.
///
/// `later` stands for the registry at any later step: a registry in which every
/// node that was visited after the first step is still visited.
pub proof fn lemma_read_once(
    reg: RegistryView,
    step: usize,
    values: Seq<(u64, Seq<char>)>,
    later: RegistryView,
    later_step: usize,
)
    requires
        commit_spec(reg, step, values) is Ok,
        forall|id: u64|
            holds_id(commit_spec(reg, step, values)->Ok_0.visited, id) ==> holds_id(
                later.visited,
                id,
            ),
        address_spec(later, later_step) is Ok,
    ensures
        address_spec(reg, step) is Ok,
        forall|i: int, j: int|
            0 <= i < address_spec(reg, step)->Ok_0.len() && 0 <= j < address_spec(
                later,
                later_step,
            )->Ok_0.len() ==> (#[trigger] address_spec(reg, step)->Ok_0[i]).0 != (
            #[trigger] address_spec(later, later_step)->Ok_0[j]).0,
{
    let queue = merged(reg.queue_at(step as int))->0;
    let first = address_spec(reg, step)->Ok_0;
    let later_queue = merged(later.queue_at(later_step as int))->0;
    let second = address_spec(later, later_step)->Ok_0;
    let after = commit_spec(reg, step, values)->Ok_0;
    lemma_batch_is_unvisited(reg, queue);
    lemma_batch_is_unvisited(later, later_queue);
    lemma_marked_holds(reg.visited, queue);
    assert forall|i: int, j: int| 0 <= i < first.len() && 0 <= j < second.len() implies (
    #[trigger] first[i]).0 != (#[trigger] second[j]).0 by {
        assert(holds_id(queue, first[i].0));
        assert(holds_id(after.visited, first[i].0));
        assert(!holds_id(later.visited, second[j].0));
    }
}

/// Single read, of slots: where a slot belongs to one node only, a slot that was
/// read at a step is in the batch of no later step.
pub proof fn lemma_slot_read_once(
    reg: RegistryView,
    step: usize,
    values: Seq<(u64, Seq<char>)>,
    later: RegistryView,
    later_step: usize,
)
    requires
        commit_spec(reg, step, values) is Ok,
        forall|id: u64|
            holds_id(commit_spec(reg, step, values)->Ok_0.visited, id) ==> holds_id(
                later.visited,
                id,
            ),
        address_spec(later, later_step) is Ok,
        forall|i: int, j: int|
            0 <= i < address_spec(reg, step)->Ok_0.len() && 0 <= j < address_spec(
                later,
                later_step,
            )->Ok_0.len() && (#[trigger] address_spec(reg, step)->Ok_0[i]).1 == (
            #[trigger] address_spec(later, later_step)->Ok_0[j]).1 ==> address_spec(
                reg,
                step,
            )->Ok_0[i].0 == address_spec(later, later_step)->Ok_0[j].0,
    ensures
        forall|i: int, j: int|
            0 <= i < address_spec(reg, step)->Ok_0.len() && 0 <= j < address_spec(
                later,
                later_step,
            )->Ok_0.len() ==> (#[trigger] address_spec(reg, step)->Ok_0[i]).1 != (
            #[trigger] address_spec(later, later_step)->Ok_0[j]).1,
{
    lemma_read_once(reg, step, values, later, later_step);
}

/// Whether a node queued for the next step comes from the queue `q`: it is a node of
/// `q` queued again, or the child of a node of `q`.
pub open spec fn comes_from(q: Seq<NodeView>, c: NodeView) -> bool {
    q.contains(c) || exists|k: int|
        0 <= k < q.len() && c.belongs_to == Some(Box::new(#[trigger] q[k]))
}

/// What a plan queues for the next step comes from the queue it was made for.
pub proof fn lemma_plan_comes_from(reg: RegistryView, queue: Seq<NodeView>, timestamp: u64)
    requires
        plan_of(reg, queue, timestamp) is Ok,
    ensures
        forall|i: int|
            0 <= i < plan_of(reg, queue, timestamp)->Ok_0.next.len() ==> comes_from(
                queue,
                #[trigger] plan_of(reg, queue, timestamp)->Ok_0.next[i],
            ),
    decreases queue.len(),
{
    if queue.len() > 0 {
        let head = queue.drop_last();
        let n = queue.last();
        lemma_plan_comes_from(reg, head, timestamp);
        let before = plan_of(reg, head, timestamp)->Ok_0;
        let part = classify(reg, n, timestamp)->Ok_0;
        let plan = plan_of(reg, queue, timestamp)->Ok_0;
        assert forall|i: int| 0 <= i < plan.next.len() implies comes_from(
            queue,
            #[trigger] plan.next[i],
        ) by {
            let c = plan.next[i];
            if i < before.next.len() {
                assert(c == before.next[i]);
                assert(comes_from(head, c));
                if head.contains(c) {
                    let k = choose|k: int| 0 <= k < head.len() && head[k] == c;
                    assert(queue[k] == c);
                } else {
                    let k = choose|k: int|
                        0 <= k < head.len() && c.belongs_to == Some(Box::new(#[trigger] head[k]));
                    assert(queue[k] == head[k]);
                }
            } else {
                assert(c == part.next[i - before.next.len()]);
                assert(queue[queue.len() - 1] == n);
                lemma_part_comes_from(reg, n, timestamp, i - before.next.len());
            }
        }
    }
}

/// What one node asks to be queued is the node itself or one of its children.
proof fn lemma_part_comes_from(reg: RegistryView, n: NodeView, timestamp: u64, i: int)
    requires
        classify(reg, n, timestamp) is Ok,
        0 <= i < classify(reg, n, timestamp)->Ok_0.next.len(),
    ensures
        classify(reg, n, timestamp)->Ok_0.next[i] == n || classify(
            reg,
            n,
            timestamp,
        )->Ok_0.next[i].belongs_to == Some(Box::new(n)),
{
}

/// A plan holds what each node of its queue asks for: for the node at position `k`,
/// the primitives it asks to be emitted are among those of the plan, the bounds it
/// asks to be recorded among its bounds, and the nodes it asks to be queued among
/// its next nodes.
///
/// For a collection this is its way from pending to resolved: while its bounds do not
/// resolve it asks for itself to be queued again and for nothing else; once they
/// resolve it asks for them to be recorded and for its elements to be queued, both
/// in the same step.
pub proof fn lemma_part_in_plan(reg: RegistryView, queue: Seq<NodeView>, timestamp: u64, k: int)
    requires
        plan_of(reg, queue, timestamp) is Ok,
        0 <= k < queue.len(),
    ensures
        classify(reg, queue[k], timestamp) is Ok,
        forall|i: int|
            0 <= i < classify(reg, queue[k], timestamp)->Ok_0.primitives.len() ==> plan_of(
                reg,
                queue,
                timestamp,
            )->Ok_0.primitives.contains(
                #[trigger] classify(reg, queue[k], timestamp)->Ok_0.primitives[i],
            ),
        forall|i: int|
            0 <= i < classify(reg, queue[k], timestamp)->Ok_0.bounds.len() ==> plan_of(
                reg,
                queue,
                timestamp,
            )->Ok_0.bounds.contains(#[trigger] classify(reg, queue[k], timestamp)->Ok_0.bounds[i]),
        forall|i: int|
            0 <= i < classify(reg, queue[k], timestamp)->Ok_0.next.len() ==> plan_of(
                reg,
                queue,
                timestamp,
            )->Ok_0.next.contains(#[trigger] classify(reg, queue[k], timestamp)->Ok_0.next[i]),
    decreases queue.len(),
{
    let head = queue.drop_last();
    let before = plan_of(reg, head, timestamp)->Ok_0;
    let last = classify(reg, queue.last(), timestamp)->Ok_0;
    let plan = plan_of(reg, queue, timestamp)->Ok_0;
    assert(plan == before.followed_by(last));
    if k < queue.len() - 1 {
        lemma_part_in_plan(reg, head, timestamp, k);
        assert(head[k] == queue[k]);
        let part = classify(reg, queue[k], timestamp)->Ok_0;
        assert forall|i: int| 0 <= i < part.primitives.len() implies plan.primitives.contains(
            #[trigger] part.primitives[i],
        ) by {
            let j = choose|j: int|
                0 <= j < before.primitives.len() && before.primitives[j] == part.primitives[i];
            assert(plan.primitives[j] == part.primitives[i]);
        }
        assert forall|i: int| 0 <= i < part.bounds.len() implies plan.bounds.contains(
            #[trigger] part.bounds[i],
        ) by {
            let j = choose|j: int| 0 <= j < before.bounds.len() && before.bounds[j] == part.bounds[i];
            assert(plan.bounds[j] == part.bounds[i]);
        }
        assert forall|i: int| 0 <= i < part.next.len() implies plan.next.contains(
            #[trigger] part.next[i],
        ) by {
            let j = choose|j: int| 0 <= j < before.next.len() && before.next[j] == part.next[i];
            assert(plan.next[j] == part.next[i]);
        }
    } else {
        assert(queue[k] == queue.last());
        assert forall|i: int| 0 <= i < last.primitives.len() implies plan.primitives.contains(
            #[trigger] last.primitives[i],
        ) by {
            assert(plan.primitives[before.primitives.len() + i] == last.primitives[i]);
        }
        assert forall|i: int| 0 <= i < last.bounds.len() implies plan.bounds.contains(
            #[trigger] last.bounds[i],
        ) by {
            assert(plan.bounds[before.bounds.len() + i] == last.bounds[i]);
        }
        assert forall|i: int| 0 <= i < last.next.len() implies plan.next.contains(
            #[trigger] last.next[i],
        ) by {
            assert(plan.next[before.next.len() + i] == last.next[i]);
        }
    }
}

/// The elements of a collection have each their own key, and with it their own
/// instance path: no two elements of a collection with bounds are written alike.
pub proof fn lemma_element_paths_differ(parent: NodeView, from: u64, to: u64, i: int, j: int)
    requires
        0 <= i < j < index_keys(from, to).len(),
    ensures
        index_keys(from, to)[i] != index_keys(from, to)[j],
        path_of(element_child(parent, index_keys(from, to)[i]), PathStyle::Instance) != path_of(
            element_child(parent, index_keys(from, to)[j]),
            PathStyle::Instance,
        ),
{
    let a = index_keys(from, to)[i];
    let b = index_keys(from, to)[j];
    lemma_decimal_round_trip((from + i) as nat);
    lemma_decimal_round_trip((from + j) as nat);
    assert(decimal_value(a) != decimal_value(b));
    let head = path_of(parent, PathStyle::Instance);
    let pa = path_of(element_child(parent, a), PathStyle::Instance);
    let pb = path_of(element_child(parent, b), PathStyle::Instance);
    assert(pa == head.push(a));
    assert(pb == head.push(b));
    assert(pa[head.len() as int] == a && pb[head.len() as int] == b);
}

/// The depth of a node: the number of nodes on its chain from the root down to
/// itself.
pub open spec fn depth_of(n: NodeView) -> nat
    decreases n,
{
    match n.belongs_to {
        Some(p) => depth_of(*p) + 1,
        None => 1,
    }
}

/// Whether every node of `q` has at least the depth `d`.
pub open spec fn all_at_least(q: Seq<NodeView>, d: int) -> bool {
    forall|i: int| 0 <= i < q.len() ==> depth_of(#[trigger] q[i]) >= d
}

/// Whether a plan queues a node of its queue again.
pub open spec fn requeues(queue: Seq<NodeView>, plan: PlanView) -> bool {
    exists|i: int| 0 <= i < plan.next.len() && queue.contains(#[trigger] plan.next[i])
}

/// The nodes of a merged queue are nodes of the queue.
pub proof fn lemma_merged_within(q: Seq<NodeView>)
    requires
        merged(q) is Some,
    ensures
        forall|i: int| 0 <= i < merged(q)->0.len() ==> q.contains(#[trigger] merged(q)->0[i]),
    decreases q.len(),
{
    if q.len() > 0 {
        let head = q.drop_last();
        lemma_merged_within(head);
        let acc = merged(head)->0;
        let out = merged(q)->0;
        assert forall|i: int| 0 <= i < out.len() implies q.contains(#[trigger] out[i]) by {
            if i < acc.len() {
                assert(out[i] == acc[i]);
                let k = choose|k: int| 0 <= k < head.len() && head[k] == acc[i];
                assert(q[k] == out[i]);
            } else {
                assert(q[q.len() - 1] == out[i]);
            }
        }
    }
}

/// What a plan queues is as deep as the nodes of its queue, and one deeper where the
/// plan queues no node of its queue again.
pub proof fn lemma_plan_depth(reg: RegistryView, queue: Seq<NodeView>, timestamp: u64, low: int)
    requires
        plan_of(reg, queue, timestamp) is Ok,
        all_at_least(queue, low),
    ensures
        all_at_least(plan_of(reg, queue, timestamp)->Ok_0.next, low),
        !requeues(queue, plan_of(reg, queue, timestamp)->Ok_0) ==> all_at_least(
            plan_of(reg, queue, timestamp)->Ok_0.next,
            low + 1,
        ),
{
    let plan = plan_of(reg, queue, timestamp)->Ok_0;
    lemma_plan_comes_from(reg, queue, timestamp);
    assert forall|i: int| 0 <= i < plan.next.len() implies depth_of(#[trigger] plan.next[i])
        >= low && (!queue.contains(plan.next[i]) ==> depth_of(plan.next[i]) >= low + 1) by {
        let c = plan.next[i];
        assert(comes_from(queue, c));
        if queue.contains(c) {
            let k = choose|k: int| 0 <= k < queue.len() && queue[k] == c;
            assert(depth_of(queue[k]) >= low);
        } else {
            let k = choose|k: int|
                0 <= k < queue.len() && c.belongs_to == Some(Box::new(#[trigger] queue[k]));
            assert(depth_of(queue[k]) >= low);
            assert(depth_of(c) == depth_of(queue[k]) + 1);
        }
    }
}

/// Step monotonicity: the second half of step `s` queues nodes for step `s + 1`
/// only, and each of them is the child of a node queued at step `s`, or such a node
/// itself, queued again because its bounds did not resolve yet.
pub proof fn lemma_children_one_step_later(reg: RegistryView, step: usize, timestamp: u64)
    requires
        reload_spec(reg, step, timestamp) is Ok,
    ensures
        forall|s: int|
            s != step + 1 ==> #[trigger] reload_spec(reg, step, timestamp)->Ok_0.queue_at(s)
                == reg.queue_at(s),
        reload_spec(reg, step, timestamp)->Ok_0.queue_at(step + 1) == reg.queue_at(step + 1)
            + plan_of(reg, merged(reg.queue_at(step as int))->0, timestamp)->Ok_0.next,
        forall|i: int|
            0 <= i < plan_of(
                reg,
                merged(reg.queue_at(step as int))->0,
                timestamp,
            )->Ok_0.next.len() ==> comes_from(
                merged(reg.queue_at(step as int))->0,
                #[trigger] plan_of(
                    reg,
                    merged(reg.queue_at(step as int))->0,
                    timestamp,
                )->Ok_0.next[i],
            ),
{
    let queue = merged(reg.queue_at(step as int))->0;
    lemma_plan_comes_from(reg, queue, timestamp);
    let after = reload_spec(reg, step, timestamp)->Ok_0;
    assert forall|s: int| s != step + 1 implies #[trigger] after.queue_at(s) == reg.queue_at(
        s,
    ) by {}
}

/// Where the plan of a part of a queue fails, the plan of the whole queue fails in
/// the same way.
proof fn lemma_plan_fails_on(reg: RegistryView, q: Seq<NodeView>, k: int, timestamp: u64)
    requires
        0 <= k <= q.len(),
        plan_of(reg, q.take(k), timestamp) is Err,
    ensures
        plan_of(reg, q, timestamp) == plan_of(reg, q.take(k), timestamp),
    decreases q.len() - k,
{
    if k == q.len() {
        assert(q.take(k) =~= q);
    } else {
        assert(q.take(k + 1).drop_last() =~= q.take(k));
        lemma_plan_fails_on(reg, q, k + 1, timestamp);
    }
}

/// Where the batch of a part of a queue fails, the batch of the whole queue fails
/// in the same way.
proof fn lemma_batch_fails_on(reg: RegistryView, q: Seq<NodeView>, k: int)
    requires
        0 <= k <= q.len(),
        batch_of(reg, q.take(k)) is Err,
    ensures
        batch_of(reg, q) == batch_of(reg, q.take(k)),
    decreases q.len() - k,
{
    if k == q.len() {
        assert(q.take(k) =~= q);
    } else {
        assert(q.take(k + 1).drop_last() =~= q.take(k));
        lemma_batch_fails_on(reg, q, k + 1);
    }
}

} // verus!
