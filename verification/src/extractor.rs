use vstd::prelude::*;
use vstd::string::*;
use crate::ast_node::{kind_of, value_type_of, ASTNode};
use crate::config_util::texts;
use crate::context::Context;
use crate::error::{DescriptorError, ExtractError, InvariantError};
use crate::executable::{derive_id, node_id, node_views, Executable, NodeView};
use crate::executor::{
    address_spec, all_at_least, commit_spec, depth_of, fail_at, fail_step, failure_at,
    failure_of_step, lemma_children_one_step_later, lemma_marked_holds, lemma_merged_within,
    lemma_plan_depth, lemma_read_once, plan_of, reload_spec, requeues, step_result, Executor,
    Failure, FailureView,
};
use crate::registry::{holds_id, merged};
use crate::registry::{writes_are_slots, Registry, RegistryView};
use crate::table::{entry_views, with_writes, writes_agree};
use crate::text::{contains_text, occurs_in, push_char, same_text};

verus! {

/// A root of the schema: its name, its type, and the absolute slot it lives at.
#[derive(Clone, Debug, PartialEq, Eq)]
pub struct BaseSlot {
    pub name: String,
    pub type_str: String,
    pub slot: String,
}

/// The traversal node of a root.
pub open spec fn root_node(b: BaseSlot) -> NodeView {
    NodeView {
        id: node_id(0, b.name@),
        name: b.name@,
        fulltype: b.type_str@,
        belongs_to: None,
        type_kind: kind_of(b.type_str@),
        value_type: value_type_of(b.type_str@),
        offset: 0,
        relative_slot: seq!['0'],
        mapping_key: None,
        key_type: None,
    }
}

/// The traversal nodes of some roots.
pub open spec fn root_nodes(roots: Seq<BaseSlot>) -> Seq<NodeView> {
    roots.map_values(|b: BaseSlot| root_node(b))
}

/// The slots of some roots, by node identity.
pub open spec fn root_slots(roots: Seq<BaseSlot>) -> Seq<(u64, Seq<char>)> {
    roots.map_values(|b: BaseSlot| (node_id(0, b.name@), b.slot@))
}

/// The views of base slots given by name: name and slot.
pub open spec fn index_views(index: Seq<(String, String)>) -> Seq<(Seq<char>, Seq<char>)> {
    index.map_values(|e: (String, String)| (e.0@, e.1@))
}

/// A root of the schema with its texts as characters.
pub struct BaseSlotView {
    pub name: Seq<char>,
    pub type_str: Seq<char>,
    pub slot: Seq<char>,
}

impl View for BaseSlot {
    type V = BaseSlotView;

    open spec fn view(&self) -> BaseSlotView {
        BaseSlotView { name: self.name@, type_str: self.type_str@, slot: self.slot@ }
    }
}

/// The views of some roots.
pub open spec fn base_slot_views(v: Seq<BaseSlot>) -> Seq<BaseSlotView> {
    v.map_values(|b: BaseSlot| b@)
}

/// The roots of one type: one for each base slot whose name occurs in the type
/// name, in the order of the base slots.
pub open spec fn roots_of_type(type_str: Seq<char>, index: Seq<(Seq<char>, Seq<char>)>) -> Seq<
    BaseSlotView,
>
    decreases index.len(),
{
    if index.len() == 0 {
        Seq::<BaseSlotView>::empty()
    } else {
        let head = roots_of_type(type_str, index.drop_last());
        if occurs_in(index.last().0, type_str) {
            head.push(BaseSlotView { name: index.last().0, type_str, slot: index.last().1 })
        } else {
            head
        }
    }
}

/// The roots of a schema: for each type of the directory, in its order, the roots of
/// that type.
pub open spec fn roots_of_types(names: Seq<Seq<char>>, index: Seq<(Seq<char>, Seq<char>)>) -> Seq<
    BaseSlotView,
>
    decreases names.len(),
{
    if names.len() == 0 {
        Seq::<BaseSlotView>::empty()
    } else {
        roots_of_types(names.drop_last(), index) + roots_of_type(names.last(), index)
    }
}

/// The first position at or after `from` of a root whose type the directory does not
/// describe, or `roots.len()`.
pub open spec fn first_undescribed(types: ASTNode, roots: Seq<BaseSlot>, from: int) -> int
    decreases roots.len() - from,
{
    if from < 0 || from >= roots.len() {
        roots.len() as int
    } else if !types.has(roots[from].type_str@) {
        from
    } else {
        first_undescribed(types, roots, from + 1)
    }
}

/// The registry after the roots are seeded: their slots recorded, and their nodes
/// kept as roots and queued for step 0, in the order given.
///
/// Fails for the first root whose type the directory does not describe with
/// `MissingType`; else with `MalformedSlot` where a slot is no slot text, else with
/// `DoubleWrite` where a root is given a slot that differs from one recorded.
pub open spec fn seed_spec(reg: RegistryView, roots: Seq<BaseSlot>) -> Result<
    RegistryView,
    FailureView,
> {
    let k = first_undescribed(reg.types, roots, 0);
    if 0 <= k < roots.len() {
        Err(
            failure_at(
                ExtractError::Descriptor(DescriptorError::MissingType),
                0,
                root_node(roots[k]),
            ),
        )
    } else if !writes_are_slots(root_slots(roots)) {
        Err(failure_of_step(ExtractError::Invariant(InvariantError::MalformedSlot), 0))
    } else if !writes_agree(reg.slots, root_slots(roots)) {
        Err(failure_of_step(ExtractError::Invariant(InvariantError::DoubleWrite), 0))
    } else {
        Ok(
            RegistryView {
                slots: with_writes(reg.slots, root_slots(roots)),
                roots: reg.roots + root_nodes(roots),
                ..reg
            }.enqueued(0, root_nodes(roots)),
        )
    }
}

/// A storage word of zeros, which is what a slot never written reads as.
pub open spec fn zero_word() -> Seq<char> {
    Seq::new(64, |i: int| '0')
}

/// The views of a table of storage words by slot.
pub open spec fn storage_views(storage: Seq<(String, String)>) -> Seq<(Seq<char>, Seq<char>)> {
    storage.map_values(|e: (String, String)| (e.0@, e.1@))
}

/// The word that the table holds for a slot: that of the first entry at or after
/// `from` for the slot, or the zero word where there is none.
pub open spec fn stored(storage: Seq<(Seq<char>, Seq<char>)>, slot: Seq<char>, from: int) -> Seq<
    char,
>
    decreases storage.len() - from,
{
    if from < 0 || from >= storage.len() {
        zero_word()
    } else if storage[from].0 == slot {
        storage[from].1
    } else {
        stored(storage, slot, from + 1)
    }
}

/// What reading a batch from the table gives: for each entry its identity and the
/// word stored at its slot.
pub open spec fn read_all(storage: Seq<(Seq<char>, Seq<char>)>, batch: Seq<(u64, Seq<char>)>) -> Seq<
    (u64, Seq<char>),
> {
    batch.map_values(|e: (u64, Seq<char>)| (e.0, stored(storage, e.1, 0)))
}

/// The registry after one whole step against the table: the address phase, the
/// read, the recording of what was read, and the classification with its writes.
pub open spec fn step_spec(
    reg: RegistryView,
    step: usize,
    storage: Seq<(Seq<char>, Seq<char>)>,
    timestamp: u64,
) -> Result<RegistryView, FailureView> {
    match address_spec(reg, step) {
        Err(f) => Err(f),
        Ok(batch) => match commit_spec(reg, step, read_all(storage, batch)) {
            Err(f) => Err(f),
            Ok(read) => reload_spec(read, step, timestamp),
        },
    }
}

/// The registry after the run from `step` on, and the step at which it stopped: the
/// first step whose queue is empty. Fails with `StepLimitExceeded` where the queue
/// of step `max` is not empty, and with the failure of the first step that fails.
pub open spec fn run_spec(
    reg: RegistryView,
    step: usize,
    max: usize,
    storage: Seq<(Seq<char>, Seq<char>)>,
    timestamp: u64,
) -> Result<(RegistryView, usize), FailureView>
    decreases max - step,
{
    if reg.queue_at(step as int).len() == 0 {
        Ok((reg, step))
    } else if step >= max {
        Err(failure_of_step(ExtractError::Invariant(InvariantError::StepLimitExceeded), step))
    } else {
        match step_spec(reg, step, storage, timestamp) {
            Err(f) => Err(f),
            Ok(next) => run_spec(next, (step + 1) as usize, max, storage, timestamp),
        }
    }
}

/// Where a run ends, well or not: the registry it leaves, and the step it stopped
/// at. For a run that fails that is the step that failed and the registry as it was
/// before that step: a step that fails writes nothing.
pub open spec fn run_end(
    reg: RegistryView,
    step: usize,
    max: usize,
    storage: Seq<(Seq<char>, Seq<char>)>,
    timestamp: u64,
) -> (RegistryView, usize)
    decreases max - step,
{
    if reg.queue_at(step as int).len() == 0 || step >= max {
        (reg, step)
    } else {
        match step_spec(reg, step, storage, timestamp) {
            Err(_) => (reg, step),
            Ok(next) => run_end(next, (step + 1) as usize, max, storage, timestamp),
        }
    }
}

/// The word that the table holds for a slot.
fn lookup(storage: &Vec<(String, String)>, slot: &str) -> (word: String)
    ensures
        word@ == stored(storage_views(storage@), slot@, 0),
{
    let ghost views = storage_views(storage@);
    let mut i: usize = 0;
    while i < storage.len()
        invariant
            i <= storage.len(),
            views == storage_views(storage@),
            stored(views, slot@, 0) == stored(views, slot@, i as int),
        decreases storage.len() - i,
    {
        assert(views[i as int] == (storage@[i as int].0@, storage@[i as int].1@));
        if same_text(storage[i].0.as_str(), slot) {
            return storage[i].1.clone();
        }
        i += 1;
    }
    let mut word = String::new();
    let mut k: usize = 0;
    while k < 64
        invariant
            k <= 64,
            word@ == Seq::new(k as nat, |i: int| '0'),
        decreases 64 - k,
    {
        push_char(&mut word, '0');
        assert(word@ =~= Seq::new((k + 1) as nat, |i: int| '0'));
        k += 1;
    }
    word
}

/// Reads a batch from the table.
fn read_batch(storage: &Vec<(String, String)>, batch: &Vec<(u64, String)>) -> (values: Vec<
    (u64, String),
>)
    ensures
        entry_views(values@) == read_all(storage_views(storage@), entry_views(batch@)),
{
    let mut values: Vec<(u64, String)> = Vec::new();
    let mut i: usize = 0;
    while i < batch.len()
        invariant
            i <= batch.len(),
            values@.len() == i,
            forall|k: int|
                0 <= k < i ==> (#[trigger] values@[k]).0 == batch@[k].0 && values@[k].1@ == stored(
                    storage_views(storage@),
                    batch@[k].1@,
                    0,
                ),
        decreases batch.len() - i,
    {
        values.push((batch[i].0, lookup(storage, batch[i].1.as_str())));
        i += 1;
    }
    proof {
        let got = entry_views(values@);
        let want = read_all(storage_views(storage@), entry_views(batch@));
        assert forall|k: int| 0 <= k < got.len() implies got[k] == want[k] by {
            assert(got[k] == (values@[k].0, values@[k].1@));
            assert(entry_views(batch@)[k] == (batch@[k].0, batch@[k].1@));
        }
        assert(got =~= want);
    }
    values
}

/// Where a run is: the step that comes next, and what it works on.
#[derive(Clone, Debug)]
pub struct ExtractorState {
    pub step: usize,
    pub context: Context,
}

/// The engine: it seeds the roots and runs the steps.
#[derive(Clone, Debug)]
pub struct Extractor {
    pub initial_members: Vec<Executable>,
    pub state: ExtractorState,
    /// The number of steps a run may take.
    pub max_steps: usize,
}

impl Extractor {
    /// Whether the engine is in order.
    pub open spec fn wf(&self) -> bool {
        &&& self.state.context.registry.wf()
        &&& self.max_steps + 1 < usize::MAX
    }

    /// An engine at step 0 with a budget of 16 steps.
    pub fn new(context: Context) -> (e: Self)
        requires
            context.registry.wf(),
        ensures
            e.wf(),
            e.state.step == 0,
            e.max_steps == 16,
            e.state.context == context,
            e.initial_members@.len() == 0,
    {
        Self { initial_members: Vec::new(), state: ExtractorState { step: 0, context }, max_steps: 16 }
    }

    /// The roots of the schema for base slots that are given by name: a type of the
    /// directory is the type of a root where the name of a base slot occurs in the
    /// type name.
    pub fn roots_from_types(&self, base_slots_index: &Vec<(String, String)>) -> (roots: Vec<
        BaseSlot,
    >)
        ensures
            base_slot_views(roots@) == roots_of_types(
                texts(self.state.context.registry.types.names@),
                index_views(base_slots_index@),
            ),
    {
        let names = &self.state.context.registry.types.names;
        let ghost all = texts(names@);
        let ghost index = index_views(base_slots_index@);
        let mut roots: Vec<BaseSlot> = Vec::new();
        let mut i: usize = 0;
        assert(base_slot_views(roots@) =~= roots_of_types(all.take(0), index));
        while i < names.len()
            invariant
                i <= names.len(),
                all == texts(names@),
                index == index_views(base_slots_index@),
                base_slot_views(roots@) == roots_of_types(all.take(i as int), index),
            decreases names.len() - i,
        {
            let ghost before = base_slot_views(roots@);
            let mut k: usize = 0;
            assert(base_slot_views(roots@) =~= before + roots_of_type(names@[i as int]@, index.take(0)));
            while k < base_slots_index.len()
                invariant
                    k <= base_slots_index.len(),
                    i < names.len(),
                    index == index_views(base_slots_index@),
                    base_slot_views(roots@) == before + roots_of_type(
                        names@[i as int]@,
                        index.take(k as int),
                    ),
                decreases base_slots_index.len() - k,
            {
                let ghost held = base_slot_views(roots@);
                proof {
                    assert(index.take(k + 1).drop_last() =~= index.take(k as int));
                    assert(index.take(k + 1).last() == (
                        base_slots_index@[k as int].0@,
                        base_slots_index@[k as int].1@,
                    ));
                }
                if contains_text(names[i].as_str(), base_slots_index[k].0.as_str()) {
                    let found = BaseSlot {
                        name: base_slots_index[k].0.clone(),
                        type_str: names[i].clone(),
                        slot: base_slots_index[k].1.clone(),
                    };
                    let ghost view = found@;
                    roots.push(found);
                    assert(base_slot_views(roots@) =~= held.push(view));
                    assert(before + roots_of_type(names@[i as int]@, index.take(k as int)).push(
                        view,
                    ) =~= held.push(view));
                }
                k += 1;
            }
            proof {
                assert(index.take(k as int) =~= index);
                assert(all.take(i + 1).drop_last() =~= all.take(i as int));
                assert(all.take(i + 1).last() == names@[i as int]@);
            }
            i += 1;
        }
        assert(all.take(i as int) =~= all);
        roots
    }

    /// Seeds the run with the roots of the schema: records the slot of each root and
    /// queues one node for each at step 0, in the order given. Where this fails
    /// nothing is recorded or queued.
    pub fn init_members_from_compiler(&mut self, base_slots: &Vec<BaseSlot>) -> (r: Result<
        (),
        Failure,
    >)
        requires
            old(self).wf(),
        ensures
            final(self).wf(),
            final(self).state.step == old(self).state.step,
            final(self).max_steps == old(self).max_steps,
            match r {
                Ok(()) => {
                    &&& seed_spec(old(self).state.context.registry@, base_slots@) == Ok::<
                        RegistryView,
                        FailureView,
                    >(final(self).state.context.registry@)
                    &&& node_views(final(self).initial_members@) == node_views(
                        old(self).initial_members@,
                    ) + root_nodes(base_slots@)
                },
                Err(f) => {
                    &&& seed_spec(old(self).state.context.registry@, base_slots@) == Err::<
                        RegistryView,
                        FailureView,
                    >(f@)
                    &&& final(self).state.context.registry@ == old(self).state.context.registry@
                    &&& final(self).initial_members@ == old(self).initial_members@
                },
            },
    {
        let ghost want = root_nodes(base_slots@);
        let ghost want_slots = root_slots(base_slots@);
        let mut nodes: Vec<Executable> = Vec::new();
        let mut slots: Vec<(u64, String)> = Vec::new();
        let mut i: usize = 0;
        assert(node_views(nodes@) =~= want.take(0));
        assert(entry_views(slots@) =~= want_slots.take(0));
        while i < base_slots.len()
            invariant
                i <= base_slots.len(),
                self.wf(),
                *self == *old(self),
                want == root_nodes(base_slots@),
                want_slots == root_slots(base_slots@),
                first_undescribed(self.state.context.registry@.types, base_slots@, 0)
                    == first_undescribed(
                    self.state.context.registry@.types,
                    base_slots@,
                    i as int,
                ),
                node_views(nodes@) == want.take(i as int),
                entry_views(slots@) == want_slots.take(i as int),
            decreases base_slots.len() - i,
        {
            let b = &base_slots[i];
            proof {
                reveal_strlit("0");
                assert("0"@ =~= seq!['0']);
            }
            let parsed = ASTNode::parse_type_str(b.type_str.as_str());
            let node = Executable {
                id: derive_id(0, b.name.as_str()),
                name: b.name.clone(),
                fulltype: b.type_str.clone(),
                belongs_to: None,
                type_kind: ASTNode::type_kind(b.type_str.as_str()),
                value_type: parsed.value_type,
                offset: 0,
                relative_slot: "0".to_owned(),
                mapping_key: None,
                key_type: None,
            };
            assert(node@ == root_node(base_slots@[i as int]));
            if self.state.context.registry.types.get_node(b.type_str.as_str()).is_none() {
                return Err(
                    fail_at(
                        ExtractError::Descriptor(DescriptorError::MissingType),
                        0,
                        &node,
                    ),
                );
            }
            let ghost nodes_before = nodes@;
            let ghost slots_before = slots@;
            slots.push((node.id, b.slot.clone()));
            nodes.push(node);
            proof {
                assert(node_views(nodes@) =~= node_views(nodes_before).push(want[i as int]));
                assert(want.take(i + 1) =~= want.take(i as int).push(want[i as int]));
                assert(entry_views(slots@) =~= entry_views(slots_before).push(
                    want_slots[i as int],
                ));
                assert(want_slots.take(i + 1) =~= want_slots.take(i as int).push(
                    want_slots[i as int],
                ));
            }
            i += 1;
        }
        proof {
            assert(want.take(i as int) =~= want);
            assert(want_slots.take(i as int) =~= want_slots);
        }
        match self.state.context.registry.bulk_set_absolute_slots(&slots) {
            Ok(()) => {},
            Err(e) => {
                return Err(fail_step(ExtractError::Invariant(e), 0));
            },
        }
        let mut k: usize = 0;
        let ghost held = self.initial_members@;
        let ghost roots_before = self.state.context.registry.roots@;
        let ghost recorded = self.state.context.registry@;
        while k < nodes.len()
            invariant
                k <= nodes.len(),
                self.wf(),
                self.state.step == old(self).state.step,
                self.max_steps == old(self).max_steps,
                node_views(nodes@) == want,
                self.initial_members@.len() == held.len() + k,
                node_views(self.initial_members@) == node_views(held) + want.take(k as int),
                self.state.context.registry@ == (RegistryView {
                    roots: recorded.roots + want.take(k as int),
                    ..recorded
                }),
            decreases nodes.len() - k,
        {
            let ghost members_before = self.initial_members@;
            let ghost reg_roots = self.state.context.registry.roots@;
            self.initial_members.push(nodes[k].duplicate());
            self.state.context.registry.roots.push(nodes[k].duplicate());
            proof {
                assert(want.take(k + 1) =~= want.take(k as int).push(want[k as int]));
                assert(node_views(self.initial_members@) =~= node_views(members_before).push(
                    want[k as int],
                ));
                assert(node_views(self.state.context.registry.roots@) =~= node_views(
                    reg_roots,
                ).push(want[k as int]));
                assert(self.state.context.registry@.roots =~= recorded.roots + want.take(k + 1));
            }
            k += 1;
        }
        assert(want.take(k as int) =~= want);
        self.state.context.registry.bulk_enqueue_execution(0, nodes);
        Ok(())
    }

    /// Whether a step is to be taken next: `Ok(true)` where nodes are queued for the
    /// engine's step and the step budget is not used up, `Ok(false)` where nothing is
    /// queued, which ends the run. Fails with `StepLimitExceeded` where nodes are
    /// queued and the budget is used up.
    pub fn next_action(&self) -> (r: Result<bool, Failure>)
        requires
            self.wf(),
        ensures
            match r {
                Ok(go) => {
                    &&& go == (self.state.context.registry@.queue_at(self.state.step as int).len()
                        != 0)
                    &&& go ==> self.state.step < self.max_steps
                },
                Err(f) => {
                    &&& self.state.context.registry@.queue_at(self.state.step as int).len() != 0
                    &&& self.state.step >= self.max_steps
                    &&& f@ == failure_of_step(
                        ExtractError::Invariant(InvariantError::StepLimitExceeded),
                        self.state.step,
                    )
                },
            },
    {
        let step = self.state.step;
        let queues = &self.state.context.registry.queue_per_step;
        if step >= queues.len() {
            return Ok(false);
        }
        assert(self.state.context.registry@.queue_at(step as int) == node_views(
            queues@[step as int]@,
        ));
        if queues[step].len() == 0 {
            return Ok(false);
        }
        if step >= self.max_steps {
            return Err(
                fail_step(ExtractError::Invariant(InvariantError::StepLimitExceeded), step),
            );
        }
        Ok(true)
    }

    /// The batch to read for the engine's step: the identity and absolute slot of
    /// each node of the step's queue that is not visited yet, in queue order.
    pub fn batch(&self) -> (r: Result<Vec<(u64, String)>, Failure>)
        requires
            self.wf(),
        ensures
            match r {
                Ok(batch) => address_spec(self.state.context.registry@, self.state.step) == Ok::<
                    Seq<(u64, Seq<char>)>,
                    FailureView,
                >(entry_views(batch@)),
                Err(f) => address_spec(self.state.context.registry@, self.state.step) == Err::<
                    Seq<(u64, Seq<char>)>,
                    FailureView,
                >(f@),
            },
    {
        Executor::address_phase(self.state.step, &self.state.context.registry)
    }

    /// Finishes the engine's step with the values that were read for its batch, and
    /// goes on to the next step. Where the step fails the engine stays at the step
    /// and its registry is left as it was before the step.
    pub fn finish_step(&mut self, values: &Vec<(u64, String)>, timestamp: u64) -> (r: Result<
        (),
        Failure,
    >)
        requires
            old(self).wf(),
            old(self).state.step < old(self).max_steps,
        ensures
            final(self).wf(),
            final(self).max_steps == old(self).max_steps,
            final(self).initial_members == old(self).initial_members,
            match r {
                Ok(()) => {
                    &&& step_result(
                        old(self).state.context.registry@,
                        old(self).state.step,
                        entry_views(values@),
                        timestamp,
                    ) == Ok::<RegistryView, FailureView>(final(self).state.context.registry@)
                    &&& final(self).state.step == old(self).state.step + 1
                },
                Err(f) => {
                    &&& step_result(
                        old(self).state.context.registry@,
                        old(self).state.step,
                        entry_views(values@),
                        timestamp,
                    ) == Err::<RegistryView, FailureView>(f@)
                    &&& final(self).state.context.registry@ == old(self).state.context.registry@
                    &&& final(self).state.step == old(self).state.step
                },
            },
    {
        let step = self.state.step;
        match Executor::step(step, &mut self.state.context.registry, values, timestamp) {
            Ok(()) => {
                self.state.step = step + 1;
                Ok(())
            },
            Err(f) => Err(f),
        }
    }

    /// Runs the steps against a table of storage words by slot, from the engine's
    /// step on, until a step has nothing queued. Gives the step it stopped at.
    ///
    /// Fails with `StepLimitExceeded` where nodes are still queued when the step
    /// budget is used up, and with the failure of the first step that fails. The
    /// engine is then left at the step that failed, with what the steps before it
    /// have written and nothing of the step that failed.
    pub fn scan_contract(&mut self, storage: &Vec<(String, String)>, timestamp: u64) -> (r: Result<
        usize,
        Failure,
    >)
        requires
            old(self).wf(),
        ensures
            final(self).wf(),
            final(self).max_steps == old(self).max_steps,
            (final(self).state.context.registry@, final(self).state.step) == run_end(
                old(self).state.context.registry@,
                old(self).state.step,
                old(self).max_steps,
                storage_views(storage@),
                timestamp,
            ),
            match r {
                Ok(step) => {
                    &&& run_spec(
                        old(self).state.context.registry@,
                        old(self).state.step,
                        old(self).max_steps,
                        storage_views(storage@),
                        timestamp,
                    ) == Ok::<(RegistryView, usize), FailureView>(
                        (final(self).state.context.registry@, step),
                    )
                    &&& final(self).state.step == step
                    &&& step <= old(self).max_steps || step == old(self).state.step
                },
                Err(f) => run_spec(
                    old(self).state.context.registry@,
                    old(self).state.step,
                    old(self).max_steps,
                    storage_views(storage@),
                    timestamp,
                ) == Err::<(RegistryView, usize), FailureView>(f@),
            },
    {
        let ghost table = storage_views(storage@);
        loop
            invariant
                self.wf(),
                self.max_steps == old(self).max_steps,
                table == storage_views(storage@),
                self.state.step <= old(self).max_steps || self.state.step == old(self).state.step,
                run_end(
                    old(self).state.context.registry@,
                    old(self).state.step,
                    old(self).max_steps,
                    table,
                    timestamp,
                ) == run_end(
                    self.state.context.registry@,
                    self.state.step,
                    self.max_steps,
                    table,
                    timestamp,
                ),
                run_spec(
                    old(self).state.context.registry@,
                    old(self).state.step,
                    old(self).max_steps,
                    table,
                    timestamp,
                ) == run_spec(
                    self.state.context.registry@,
                    self.state.step,
                    self.max_steps,
                    table,
                    timestamp,
                ),
            decreases
                    if self.state.step <= self.max_steps {
                        self.max_steps - self.state.step + 1
                    } else {
                        0
                    },
        {
            let go = match self.next_action() {
                Ok(go) => go,
                Err(f) => {
                    return Err(f);
                },
            };
            if !go {
                return Ok(self.state.step);
            }
            let batch = match self.batch() {
                Ok(b) => b,
                Err(f) => {
                    return Err(f);
                },
            };
            let values = read_batch(storage, &batch);
            match self.finish_step(&values, timestamp) {
                Ok(()) => {},
                Err(f) => {
                    return Err(f);
                },
            }
        }
    }

    /// Runs the engine against a table of storage words; the same as `scan_contract`.
    pub fn listen(&mut self, storage: &Vec<(String, String)>, timestamp: u64) -> (r: Result<
        usize,
        Failure,
    >)
        requires
            old(self).wf(),
        ensures
            final(self).wf(),
            final(self).max_steps == old(self).max_steps,
            (final(self).state.context.registry@, final(self).state.step) == run_end(
                old(self).state.context.registry@,
                old(self).state.step,
                old(self).max_steps,
                storage_views(storage@),
                timestamp,
            ),
            match r {
                Ok(step) => run_spec(
                    old(self).state.context.registry@,
                    old(self).state.step,
                    old(self).max_steps,
                    storage_views(storage@),
                    timestamp,
                ) == Ok::<(RegistryView, usize), FailureView>(
                    (final(self).state.context.registry@, step),
                ),
                Err(f) => run_spec(
                    old(self).state.context.registry@,
                    old(self).state.step,
                    old(self).max_steps,
                    storage_views(storage@),
                    timestamp,
                ) == Err::<(RegistryView, usize), FailureView>(f@),
            },
    {
        self.scan_contract(storage, timestamp)
    }
}

/// Determinism: two runs over registries that hold the same, against the same table
/// of storage words and at the same time, end with registries that hold the same, at
/// the same step, or fail in the same way.
pub proof fn lemma_run_deterministic(
    a: Registry,
    b: Registry,
    step: usize,
    max: usize,
    storage_a: Seq<(String, String)>,
    storage_b: Seq<(String, String)>,
    timestamp: u64,
)
    requires
        a@ == b@,
        storage_views(storage_a) == storage_views(storage_b),
    ensures
        run_spec(a@, step, max, storage_views(storage_a), timestamp) == run_spec(
            b@,
            step,
            max,
            storage_views(storage_b),
            timestamp,
        ),
{
}

/// Termination: a run that ends well stops at a step that is not before the first
/// and, unless nothing was queued to begin with, not behind the step budget; behind
/// its last step nothing is queued.
pub proof fn lemma_run_bounded(
    reg: RegistryView,
    step: usize,
    max: usize,
    storage: Seq<(Seq<char>, Seq<char>)>,
    timestamp: u64,
)
    requires
        run_spec(reg, step, max, storage, timestamp) is Ok,
        max < usize::MAX,
    ensures
        ({
            let (after, stop) = run_spec(reg, step, max, storage, timestamp)->Ok_0;
            &&& step <= stop
            &&& stop <= max || stop == step
            &&& after.queue_at(stop as int).len() == 0
        }),
    decreases max - step,
{
    if reg.queue_at(step as int).len() != 0 && step < max {
        let next = step_spec(reg, step, storage, timestamp)->Ok_0;
        lemma_run_bounded(next, (step + 1) as usize, max, storage, timestamp);
    }
}

/// Whether the step puts a node of its queue off: queues it again for the next step
/// because its bounds do not resolve yet.
pub open spec fn step_requeues(
    reg: RegistryView,
    step: usize,
    storage: Seq<(Seq<char>, Seq<char>)>,
    timestamp: u64,
) -> bool {
    let read = commit_spec(reg, step, read_all(storage, address_spec(reg, step)->Ok_0))->Ok_0;
    let queue = merged(read.queue_at(step as int))->0;
    requeues(queue, plan_of(read, queue, timestamp)->Ok_0)
}

/// The number of steps of a run that put a node off.
pub open spec fn run_requeues(
    reg: RegistryView,
    step: usize,
    max: usize,
    storage: Seq<(Seq<char>, Seq<char>)>,
    timestamp: u64,
) -> nat
    decreases max - step,
{
    if reg.queue_at(step as int).len() == 0 || step >= max {
        0
    } else {
        match step_spec(reg, step, storage, timestamp) {
            Err(_) => 0,
            Ok(next) => (if step_requeues(reg, step, storage, timestamp) {
                1nat
            } else {
                0nat
            }) + run_requeues(next, (step + 1) as usize, max, storage, timestamp),
        }
    }
}

/// The collections that the step puts off, by identity.
pub open spec fn step_put_off(
    reg: RegistryView,
    step: usize,
    storage: Seq<(Seq<char>, Seq<char>)>,
    timestamp: u64,
) -> Set<u64> {
    let read = commit_spec(reg, step, read_all(storage, address_spec(reg, step)->Ok_0))->Ok_0;
    let queue = merged(read.queue_at(step as int))->0;
    let next = plan_of(read, queue, timestamp)->Ok_0.next;
    Set::new(
        |id: u64|
            exists|i: int|
                0 <= i < next.len() && queue.contains(#[trigger] next[i]) && next[i].id == id,
    )
}

/// The collections that a run puts off at one step or another, by identity: those
/// whose bounds did not resolve when they were first met.
pub open spec fn run_put_off(
    reg: RegistryView,
    step: usize,
    max: usize,
    storage: Seq<(Seq<char>, Seq<char>)>,
    timestamp: u64,
) -> Set<u64>
    decreases max - step,
{
    if reg.queue_at(step as int).len() == 0 || step >= max {
        Set::<u64>::empty()
    } else {
        match step_spec(reg, step, storage, timestamp) {
            Err(_) => Set::<u64>::empty(),
            Ok(next) => step_put_off(reg, step, storage, timestamp).union(
                run_put_off(next, (step + 1) as usize, max, storage, timestamp),
            ),
        }
    }
}

/// What one step does to the queues: the queues up to the step stay, the queue of
/// the next step is what the step queues, and nothing is queued further ahead. What
/// it queues is as deep as the step's queue, and one deeper unless the step puts a
/// node off.
proof fn lemma_step_depth(
    reg: RegistryView,
    step: usize,
    storage: Seq<(Seq<char>, Seq<char>)>,
    timestamp: u64,
    low: int,
)
    requires
        step_spec(reg, step, storage, timestamp) is Ok,
        step < usize::MAX,
        all_at_least(reg.queue_at(step as int), low),
        forall|s: int| s > step ==> (#[trigger] reg.queue_at(s)).len() == 0,
    ensures
        ({
            let next = step_spec(reg, step, storage, timestamp)->Ok_0;
            &&& next.queue_at(step as int) == reg.queue_at(step as int)
            &&& forall|s: int| s > step + 1 ==> (#[trigger] next.queue_at(s)).len() == 0
            &&& all_at_least(next.queue_at(step + 1), low)
            &&& !step_requeues(reg, step, storage, timestamp) ==> all_at_least(
                next.queue_at(step + 1),
                low + 1,
            )
        }),
{
    let batch = address_spec(reg, step)->Ok_0;
    let read = commit_spec(reg, step, read_all(storage, batch))->Ok_0;
    let next = reload_spec(read, step, timestamp)->Ok_0;
    let raw = reg.queue_at(step as int);
    assert(read.queue == reg.queue);
    let queue = merged(raw)->0;
    let plan = plan_of(read, queue, timestamp)->Ok_0;
    lemma_merged_within(raw);
    assert(all_at_least(queue, low)) by {
        assert forall|i: int| 0 <= i < queue.len() implies depth_of(
            #[trigger] queue[i],
        ) >= low by {
            let k = choose|k: int| 0 <= k < raw.len() && raw[k] == queue[i];
            assert(depth_of(raw[k]) >= low);
        }
    }
    lemma_plan_depth(read, queue, timestamp, low);
    lemma_children_one_step_later(read, step, timestamp);
    assert(next.queue_at(step + 1) =~= plan.next) by {
        assert(reg.queue_at(step + 1).len() == 0);
        assert(read.queue_at(step + 1) == reg.queue_at(step + 1));
        assert(read.queue_at(step + 1) + plan.next =~= plan.next);
    }
    assert forall|s: int| s > step + 1 implies (#[trigger] next.queue_at(s)).len() == 0 by {
        assert(next.queue_at(s) == read.queue_at(s));
        assert(read.queue_at(s) == reg.queue_at(s));
    }
}

/// Termination: in a run that ends well and had nothing queued ahead of its first
/// step, the nodes of the last step are deeper than those of the first step by the
/// number of steps between them, less the number of steps that put a node off. So a
/// run takes no more steps than its schema is deep, and one more for each step that
/// puts a node off.
pub proof fn lemma_run_depth(
    reg: RegistryView,
    step: usize,
    max: usize,
    storage: Seq<(Seq<char>, Seq<char>)>,
    timestamp: u64,
    low: int,
)
    requires
        run_spec(reg, step, max, storage, timestamp) is Ok,
        max < usize::MAX,
        all_at_least(reg.queue_at(step as int), low),
        forall|s: int| s > step ==> (#[trigger] reg.queue_at(s)).len() == 0,
    ensures
        ({
            let (after, stop) = run_spec(reg, step, max, storage, timestamp)->Ok_0;
            stop > step ==> {
                &&& after.queue_at(stop - 1).len() > 0
                &&& all_at_least(
                    after.queue_at(stop - 1),
                    low + (stop - 1 - step) - run_requeues(reg, step, max, storage, timestamp),
                )
            }
        }),
    decreases max - step,
{
    if reg.queue_at(step as int).len() != 0 && step < max {
        let next = step_spec(reg, step, storage, timestamp)->Ok_0;
        let put_off: int = if step_requeues(reg, step, storage, timestamp) {
            1
        } else {
            0
        };
        lemma_step_depth(reg, step, storage, timestamp, low);
        let ahead = (step + 1) as usize;
        let (after, stop) = run_spec(next, ahead, max, storage, timestamp)->Ok_0;
        lemma_run_bounded(next, ahead, max, storage, timestamp);
        assert(run_requeues(reg, step, max, storage, timestamp) == put_off + run_requeues(
            next,
            ahead,
            max,
            storage,
            timestamp,
        ));
        if next.queue_at(ahead as int).len() == 0 {
            assert(stop == ahead && after == next);
            assert(run_requeues(next, ahead, max, storage, timestamp) == 0);
            let last = after.queue_at(stop - 1);
            assert(last == reg.queue_at(step as int));
            assert forall|i: int| 0 <= i < last.len() implies depth_of(
                #[trigger] last[i],
            ) >= low - put_off by {}
        } else {
            assert(ahead < max);
            let further = step_spec(next, ahead, storage, timestamp)->Ok_0;
            lemma_run_bounded(further, (ahead + 1) as usize, max, storage, timestamp);
            assert(stop > ahead);
            lemma_run_depth(next, ahead, max, storage, timestamp, low + 1 - put_off);
        }
    }
}

/// Whether no collection is put off at two steps of the run: what a step puts off
/// is put off at no later step.
pub open spec fn puts_off_once(
    reg: RegistryView,
    step: usize,
    max: usize,
    storage: Seq<(Seq<char>, Seq<char>)>,
    timestamp: u64,
) -> bool
    decreases max - step,
{
    if reg.queue_at(step as int).len() == 0 || step >= max {
        true
    } else {
        match step_spec(reg, step, storage, timestamp) {
            Err(_) => true,
            Ok(next) => {
                &&& step_put_off(reg, step, storage, timestamp).disjoint(
                    run_put_off(next, (step + 1) as usize, max, storage, timestamp),
                )
                &&& puts_off_once(next, (step + 1) as usize, max, storage, timestamp)
            },
        }
    }
}

/// The collections that one step puts off are finitely many, and where the step
/// puts a node off there is one at least.
proof fn lemma_step_put_off(
    reg: RegistryView,
    step: usize,
    storage: Seq<(Seq<char>, Seq<char>)>,
    timestamp: u64,
)
    ensures
        step_put_off(reg, step, storage, timestamp).finite(),
        step_requeues(reg, step, storage, timestamp) ==> step_put_off(
            reg,
            step,
            storage,
            timestamp,
        ).len() >= 1,
{
    let read = commit_spec(reg, step, read_all(storage, address_spec(reg, step)->Ok_0))->Ok_0;
    let queue = merged(read.queue_at(step as int))->0;
    let next = plan_of(read, queue, timestamp)->Ok_0.next;
    let put_off = step_put_off(reg, step, storage, timestamp);
    let ids = next.map_values(|n: NodeView| n.id);
    vstd::seq_lib::seq_to_set_is_finite(ids);
    assert(put_off.subset_of(ids.to_set())) by {
        assert forall|id: u64| put_off.contains(id) implies ids.to_set().contains(id) by {
            let i = choose|i: int|
                0 <= i < next.len() && queue.contains(#[trigger] next[i]) && next[i].id == id;
            assert(ids[i] == id);
            assert(ids.contains(id));
        }
    }
    vstd::set_lib::lemma_len_subset(put_off, ids.to_set());
    if step_requeues(reg, step, storage, timestamp) {
        let i = choose|i: int| 0 <= i < next.len() && queue.contains(#[trigger] next[i]);
        assert(put_off.contains(next[i].id));
        vstd::set_lib::lemma_set_empty_equivalency_len(put_off);
        assert(put_off != Set::<u64>::empty());
    }
}

/// Where no collection is put off twice, no more steps put a node off than there
/// are collections put off.
pub proof fn lemma_put_off_counts(
    reg: RegistryView,
    step: usize,
    max: usize,
    storage: Seq<(Seq<char>, Seq<char>)>,
    timestamp: u64,
)
    requires
        puts_off_once(reg, step, max, storage, timestamp),
    ensures
        run_put_off(reg, step, max, storage, timestamp).finite(),
        run_requeues(reg, step, max, storage, timestamp) <= run_put_off(
            reg,
            step,
            max,
            storage,
            timestamp,
        ).len(),
    decreases max - step,
{
    if reg.queue_at(step as int).len() != 0 && step < max && step_spec(
        reg,
        step,
        storage,
        timestamp,
    ) is Ok {
        let next = step_spec(reg, step, storage, timestamp)->Ok_0;
        let ahead = (step + 1) as usize;
        lemma_put_off_counts(next, ahead, max, storage, timestamp);
        lemma_step_put_off(reg, step, storage, timestamp);
        let here = step_put_off(reg, step, storage, timestamp);
        let later = run_put_off(next, ahead, max, storage, timestamp);
        vstd::set::axiom_set_union_finite(here, later);
        vstd::set_lib::lemma_set_disjoint_lens(here, later);
        assert(here.union(later).len() == here.len() + later.len());
    }
}

/// Termination, counted in collections: in a run in which no collection is put off
/// twice, the nodes of the last step are deeper than those of the first by the
/// number of steps between them, less the number of collections that were put off.
/// So such a run takes no more steps than its schema is deep, and one more for each
/// collection whose bounds did not resolve when it was first met.
pub proof fn lemma_run_depth_by_collections(
    reg: RegistryView,
    step: usize,
    max: usize,
    storage: Seq<(Seq<char>, Seq<char>)>,
    timestamp: u64,
    low: int,
)
    requires
        run_spec(reg, step, max, storage, timestamp) is Ok,
        max < usize::MAX,
        all_at_least(reg.queue_at(step as int), low),
        forall|s: int| s > step ==> (#[trigger] reg.queue_at(s)).len() == 0,
        puts_off_once(reg, step, max, storage, timestamp),
    ensures
        ({
            let (after, stop) = run_spec(reg, step, max, storage, timestamp)->Ok_0;
            stop > step ==> {
                &&& after.queue_at(stop - 1).len() > 0
                &&& all_at_least(
                    after.queue_at(stop - 1),
                    low + (stop - 1 - step) - run_put_off(reg, step, max, storage, timestamp).len(),
                )
            }
        }),
{
    lemma_run_depth(reg, step, max, storage, timestamp, low);
    lemma_put_off_counts(reg, step, max, storage, timestamp);
    let (after, stop) = run_spec(reg, step, max, storage, timestamp)->Ok_0;
    if stop > step {
        let last = after.queue_at(stop - 1);
        let by_steps = low + (stop - 1 - step) - run_requeues(reg, step, max, storage, timestamp);
        let by_collections = low + (stop - 1 - step) - run_put_off(
            reg,
            step,
            max,
            storage,
            timestamp,
        ).len();
        assert forall|i: int| 0 <= i < last.len() implies depth_of(#[trigger] last[i])
            >= by_collections by {
            assert(depth_of(last[i]) >= by_steps);
        }
    }
}

/// The registry before step `to` of the steps taken from step `from` on, one after
/// the other; `None` where a step before `to` fails.
pub open spec fn state_at(
    reg: RegistryView,
    from: usize,
    to: usize,
    storage: Seq<(Seq<char>, Seq<char>)>,
    timestamp: u64,
) -> Option<RegistryView>
    decreases to - from,
{
    if to <= from {
        Some(reg)
    } else {
        match step_spec(reg, from, storage, timestamp) {
            Ok(next) => state_at(next, (from + 1) as usize, to, storage, timestamp),
            Err(_) => None,
        }
    }
}

/// A run that ends well ends in the registry that its steps lead to.
pub proof fn lemma_run_is_steps(
    reg: RegistryView,
    step: usize,
    max: usize,
    storage: Seq<(Seq<char>, Seq<char>)>,
    timestamp: u64,
)
    requires
        run_spec(reg, step, max, storage, timestamp) is Ok,
        max < usize::MAX,
    ensures
        ({
            let (after, stop) = run_spec(reg, step, max, storage, timestamp)->Ok_0;
            state_at(reg, step, stop, storage, timestamp) == Some(after)
        }),
    decreases max - step,
{
    if reg.queue_at(step as int).len() != 0 && step < max {
        let next = step_spec(reg, step, storage, timestamp)->Ok_0;
        lemma_run_bounded(next, (step + 1) as usize, max, storage, timestamp);
        lemma_run_is_steps(next, (step + 1) as usize, max, storage, timestamp);
    }
}

/// A step keeps every visited node visited.
pub proof fn lemma_step_keeps_visited(
    reg: RegistryView,
    step: usize,
    storage: Seq<(Seq<char>, Seq<char>)>,
    timestamp: u64,
)
    requires
        step_spec(reg, step, storage, timestamp) is Ok,
    ensures
        forall|id: u64|
            holds_id(reg.visited, id) ==> holds_id(
                step_spec(reg, step, storage, timestamp)->Ok_0.visited,
                id,
            ),
{
    let queue = merged(reg.queue_at(step as int))->0;
    lemma_marked_holds(reg.visited, queue);
}

/// Steps keep every visited node visited.
pub proof fn lemma_steps_keep_visited(
    reg: RegistryView,
    from: usize,
    to: usize,
    storage: Seq<(Seq<char>, Seq<char>)>,
    timestamp: u64,
)
    requires
        state_at(reg, from, to, storage, timestamp) is Some,
    ensures
        forall|id: u64|
            holds_id(reg.visited, id) ==> holds_id(
                state_at(reg, from, to, storage, timestamp)->0.visited,
                id,
            ),
    decreases to - from,
{
    if to > from {
        let next = step_spec(reg, from, storage, timestamp)->Ok_0;
        lemma_step_keeps_visited(reg, from, storage, timestamp);
        lemma_steps_keep_visited(next, (from + 1) as usize, to, storage, timestamp);
    }
}

/// The steps up to `to` are the steps up to `mid` and then the steps from `mid`.
pub proof fn lemma_steps_compose(
    reg: RegistryView,
    from: usize,
    mid: usize,
    to: usize,
    storage: Seq<(Seq<char>, Seq<char>)>,
    timestamp: u64,
)
    requires
        from <= mid <= to,
        state_at(reg, from, mid, storage, timestamp) is Some,
    ensures
        state_at(reg, from, to, storage, timestamp) == state_at(
            state_at(reg, from, mid, storage, timestamp)->0,
            mid,
            to,
            storage,
            timestamp,
        ),
    decreases mid - from,
{
    if mid > from {
        let next = step_spec(reg, from, storage, timestamp)->Ok_0;
        lemma_steps_compose(next, (from + 1) as usize, mid, to, storage, timestamp);
    }
}

/// Single read, over a run: a node that is in the batch of one step is in the batch
/// of no later step.
pub proof fn lemma_run_reads_once(
    reg: RegistryView,
    from: usize,
    first: usize,
    second: usize,
    storage: Seq<(Seq<char>, Seq<char>)>,
    timestamp: u64,
)
    requires
        from <= first < second,
        state_at(reg, from, second, storage, timestamp) is Some,
        address_spec(state_at(reg, from, second, storage, timestamp)->0, second) is Ok,
    ensures
        state_at(reg, from, first, storage, timestamp) is Some,
        address_spec(state_at(reg, from, first, storage, timestamp)->0, first) is Ok,
        forall|i: int, j: int|
            0 <= i < address_spec(
                state_at(reg, from, first, storage, timestamp)->0,
                first,
            )->Ok_0.len() && 0 <= j < address_spec(
                state_at(reg, from, second, storage, timestamp)->0,
                second,
            )->Ok_0.len() ==> (#[trigger] address_spec(
                state_at(reg, from, first, storage, timestamp)->0,
                first,
            )->Ok_0[i]).0 != (#[trigger] address_spec(
                state_at(reg, from, second, storage, timestamp)->0,
                second,
            )->Ok_0[j]).0,
{
    lemma_steps_reach(reg, from, first, second, storage, timestamp);
    let early = state_at(reg, from, first, storage, timestamp)->0;
    let late = state_at(reg, from, second, storage, timestamp)->0;
    lemma_steps_compose(reg, from, first, second, storage, timestamp);
    let batch = address_spec(early, first)->Ok_0;
    let values = read_all(storage, batch);
    let read = commit_spec(early, first, values)->Ok_0;
    let next = step_spec(early, first, storage, timestamp)->Ok_0;
    assert(next.visited == read.visited);
    lemma_steps_keep_visited(next, (first + 1) as usize, second, storage, timestamp);
    lemma_read_once(early, first, values, late, second);
}

/// Where the steps up to `to` go well, so do the steps up to any step before.
proof fn lemma_steps_reach(
    reg: RegistryView,
    from: usize,
    mid: usize,
    to: usize,
    storage: Seq<(Seq<char>, Seq<char>)>,
    timestamp: u64,
)
    requires
        from <= mid <= to,
        state_at(reg, from, to, storage, timestamp) is Some,
    ensures
        state_at(reg, from, mid, storage, timestamp) is Some,
    decreases mid - from,
{
    if mid > from {
        let next = step_spec(reg, from, storage, timestamp)->Ok_0;
        lemma_steps_reach(next, (from + 1) as usize, mid, to, storage, timestamp);
    }
}

} // verus!
