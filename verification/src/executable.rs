use vstd::prelude::*;
use vstd::string::*;
use vstd::bytes::{
    spec_u64_from_le_bytes, spec_u64_to_le_bytes, u64_from_le_bytes, u64_to_le_bytes,
};
use vstd::utf8::encode_utf8;
use crate::address::{
    child_slot, child_slot_text, element_slot, element_slot_text, hex_bytes, hex_text, is_slot,
    keccak256, keccak256_digest, lemma_number_slot, lemma_pow256_positive, slot_bytes,
    slot_number, slot_space,
};
use crate::ast_node::{
    descriptor_fault, key_type_of, kind_of, opt_view, value_type_of, ASTNode, MemberDescriptor,
};
use crate::config_util::{constraint_id, texts, ConfigUtil};
use crate::error::{DescriptorError, InvariantError};
use crate::registry::Registry;
use crate::text::{append_bytes, decimal_value, is_decimal, same_text};
use crate::type_kind::TypeKind;

verus! {

/// What a traversal node is, with its texts as character sequences.
pub struct NodeView {
    pub id: u64,
    pub name: Seq<char>,
    pub fulltype: Seq<char>,
    pub belongs_to: Option<Box<NodeView>>,
    pub type_kind: TypeKind,
    pub value_type: Seq<char>,
    pub offset: usize,
    pub relative_slot: Seq<char>,
    pub mapping_key: Option<Seq<char>>,
    pub key_type: Option<Seq<char>>,
}

/// One visited instance of a type: a root, a struct member, or a collection element.
#[derive(Debug, PartialEq, Eq)]
pub struct Executable {
    /// The node's identity, derived from its parent's and its label or key.
    pub id: u64,
    /// The member label; for an element, the label of the collection it is in.
    pub name: String,
    pub fulltype: String,
    /// The node this one was reached from; `None` for a root.
    pub belongs_to: Option<Box<Executable>>,
    pub type_kind: TypeKind,
    pub value_type: String,
    /// The byte offset within the slot.
    pub offset: usize,
    /// The slot relative to the parent's, a decimal numeral.
    pub relative_slot: String,
    /// The key under which the parent collection holds this node.
    pub mapping_key: Option<String>,
    /// The type of that key.
    pub key_type: Option<String>,
}

/// The view of a node: the node with each text as its characters.
pub open spec fn node_view(e: Executable) -> NodeView
    decreases e,
{
    NodeView {
        id: e.id,
        name: e.name@,
        fulltype: e.fulltype@,
        belongs_to: match e.belongs_to {
            Some(p) => Some(Box::new(node_view(*p))),
            None => None,
        },
        type_kind: e.type_kind,
        value_type: e.value_type@,
        offset: e.offset,
        relative_slot: e.relative_slot@,
        mapping_key: opt_view(e.mapping_key),
        key_type: opt_view(e.key_type),
    }
}

impl View for Executable {
    type V = NodeView;

    open spec fn view(&self) -> NodeView {
        node_view(*self)
    }
}

/// The identity of a node reached from the node `parent` under a label or key: the
/// first eight bytes, least significant first, of the Keccak-256 digest of the
/// parent's identity, as eight bytes least significant first, followed by the UTF-8
/// bytes of the label or key. A root has the parent identity 0.
pub open spec fn node_id(parent: u64, key: Seq<char>) -> u64 {
    spec_u64_from_le_bytes(
        keccak256_digest(spec_u64_to_le_bytes(parent) + encode_utf8(key)).subrange(0, 8),
    )
}

/// The node for a member of a struct node.
pub open spec fn member_child(parent: NodeView, m: MemberDescriptor) -> NodeView {
    NodeView {
        id: node_id(parent.id, m.label@),
        name: m.label@,
        fulltype: m.type_str@,
        belongs_to: Some(Box::new(parent)),
        type_kind: kind_of(m.type_str@),
        value_type: value_type_of(m.type_str@),
        offset: m.offset,
        relative_slot: m.slot@,
        mapping_key: None,
        key_type: None,
    }
}

/// The node for the element that a collection node holds under `key`.
pub open spec fn element_child(parent: NodeView, key: Seq<char>) -> NodeView {
    let held = value_type_of(parent.fulltype);
    NodeView {
        id: node_id(parent.id, key),
        name: parent.name,
        fulltype: held,
        belongs_to: Some(Box::new(parent)),
        type_kind: kind_of(held),
        value_type: value_type_of(held),
        offset: 0,
        relative_slot: seq!['0'],
        mapping_key: Some(key),
        key_type: key_type_of(parent.fulltype),
    }
}

/// Whether the directory describes the type of every member.
pub open spec fn members_described(types: ASTNode, members: Seq<MemberDescriptor>) -> bool {
    forall|i: int| 0 <= i < members.len() ==> types.has((#[trigger] members[i]).type_str@)
}

/// The children of a node: for a struct its members in declared order, for a
/// collection one element for each key in the order given, for a primitive none.
///
/// Whatever the kind of the node, this fails first with what is wrong with the
/// description of the node's own type: a node whose type the directory does not
/// describe has no children to give, it has a fault. After that it fails with
/// `MissingType` where the directory does not describe the type of a member or of
/// the elements.
pub open spec fn children_of(n: NodeView, types: ASTNode, keys: Option<Seq<Seq<char>>>) -> Result<
    Seq<NodeView>,
    DescriptorError,
> {
    match descriptor_fault(types, n.fulltype) {
        Some(e) => Err(e),
        None => match n.type_kind {
            TypeKind::NaiveStruct => {
                let members = types.members_of(n.fulltype);
                if !members_described(types, members) {
                    Err(DescriptorError::MissingType)
                } else {
                    Ok(members.map_values(|m: MemberDescriptor| member_child(n, m)))
                }
            },
            TypeKind::Primitive => Ok(Seq::<NodeView>::empty()),
            _ => match keys {
                Some(ks) => if ks.len() == 0 {
                    Ok(Seq::<NodeView>::empty())
                } else if !types.has(value_type_of(n.fulltype)) {
                    Err(DescriptorError::MissingType)
                } else {
                    Ok(ks.map_values(|k: Seq<char>| element_child(n, k)))
                },
                None => Ok(Seq::<NodeView>::empty()),
            },
        },
    }
}

/// The absolute slot of a node from the recorded slot of its parent: for the member
/// of a struct the parent's slot plus the relative slot modulo 2^256, for the element
/// of a collection the digest of its key followed by the parent's slot.
pub open spec fn slot_of(n: NodeView, slots: Map<u64, Seq<char>>) -> Result<
    Seq<char>,
    InvariantError,
> {
    match n.belongs_to {
        None => Err(InvariantError::MissingParentSlot),
        Some(p) => if !slots.contains_key(p.id) {
            Err(InvariantError::MissingParentSlot)
        } else if !is_slot(slots[p.id]) {
            Err(InvariantError::MalformedSlot)
        } else if p.type_kind.iterish() {
            match n.mapping_key {
                Some(key) => Ok(element_slot_text(slots[p.id], key)),
                None => Err(InvariantError::MissingKey),
            }
        } else if !is_decimal(n.relative_slot) || decimal_value(n.relative_slot) > u64::MAX {
            Err(InvariantError::MalformedSlot)
        } else {
            Ok(child_slot_text(slots[p.id], n.relative_slot))
        },
    }
}

/// The shape of the children of a node: a primitive has none; those of a collection
/// have each a key and share one type, the element type; those of a struct are its
/// members in declared order, without keys; and each child has the node as parent.
pub proof fn lemma_children_shape(n: NodeView, types: ASTNode, keys: Option<Seq<Seq<char>>>)
    requires
        children_of(n, types, keys) is Ok,
    ensures
        n.type_kind is Primitive ==> children_of(n, types, keys)->Ok_0.len() == 0,
        forall|i: int|
            0 <= i < children_of(n, types, keys)->Ok_0.len() ==> (#[trigger] children_of(
                n,
                types,
                keys,
            )->Ok_0[i]).belongs_to == Some(Box::new(n)),
        n.type_kind.iterish() ==> forall|i: int|
            0 <= i < children_of(n, types, keys)->Ok_0.len() ==> {
                &&& (#[trigger] children_of(n, types, keys)->Ok_0[i]).mapping_key == Some(
                    keys->0[i],
                )
                &&& children_of(n, types, keys)->Ok_0[i].fulltype == value_type_of(n.fulltype)
            },
        n.type_kind is NaiveStruct ==> {
            &&& children_of(n, types, keys)->Ok_0.len() == types.members_of(n.fulltype).len()
            &&& forall|i: int|
                0 <= i < children_of(n, types, keys)->Ok_0.len() ==> {
                    &&& (#[trigger] children_of(n, types, keys)->Ok_0[i]).name
                        == types.members_of(n.fulltype)[i].label@
                    &&& children_of(n, types, keys)->Ok_0[i].fulltype == types.members_of(
                        n.fulltype,
                    )[i].type_str@
                    &&& children_of(n, types, keys)->Ok_0[i].mapping_key is None
                }
        },
{
}

/// Struct linearity: the slot of a member of a struct is the slot of the struct plus
/// the member's relative slot, modulo 2^256.
pub proof fn lemma_struct_linearity(n: NodeView, slots: Map<u64, Seq<char>>)
    requires
        n.belongs_to is Some,
        !n.belongs_to->0.type_kind.iterish(),
        slot_of(n, slots) is Ok,
    ensures
        is_slot(slot_of(n, slots)->Ok_0),
        slot_number(slot_of(n, slots)->Ok_0) == (slot_number(slots[n.belongs_to->0.id])
            + decimal_value(n.relative_slot)) % slot_space(),
{
    let parent = slots[n.belongs_to->0.id];
    let sum = slot_number(parent) + decimal_value(n.relative_slot);
    lemma_pow256_positive(32);
    vstd::arithmetic::div_mod::lemma_mod_pos_bound(sum as int, slot_space() as int);
    lemma_number_slot(sum % slot_space());
}

/// Element hashing: the slot of an element of a collection is the Keccak-256 digest
/// of its key's bytes followed by the 32 bytes of the collection's slot.
pub proof fn lemma_element_hashing(n: NodeView, slots: Map<u64, Seq<char>>)
    requires
        n.belongs_to is Some,
        n.belongs_to->0.type_kind.iterish(),
        slot_of(n, slots) is Ok,
    ensures
        n.mapping_key is Some,
        slot_of(n, slots)->Ok_0 == hex_text(
            keccak256_digest(
                encode_utf8(n.mapping_key->0) + hex_bytes(slots[n.belongs_to->0.id]),
            ),
        ),
{
}

/// Computes the identity of a node from its parent's and its label or key.
pub fn derive_id(parent: u64, key: &str) -> (id: u64)
    ensures
        id == node_id(parent, key@),
{
    let mut preimage = u64_to_le_bytes(parent);
    append_bytes(&mut preimage, key.as_bytes());
    let digest = keccak256(preimage.as_slice());
    let mut head: Vec<u8> = Vec::new();
    let mut i: usize = 0;
    while i < 8
        invariant
            i <= 8,
            head@ == digest@.subrange(0, i as int),
        decreases 8 - i,
    {
        head.push(digest[i]);
        assert(digest@.subrange(0, i + 1) =~= digest@.subrange(0, i as int).push(digest@[i as int]));
        i += 1;
    }
    u64_from_le_bytes(head.as_slice())
}

/// The views of some nodes.
pub open spec fn node_views(v: Seq<Executable>) -> Seq<NodeView> {
    v.map_values(|e: Executable| e@)
}

/// The three ways to write a node's path.
#[derive(Clone, Copy, Debug, PartialEq, Eq, Structural)]
pub enum PathStyle {
    /// Names only; elements add nothing, so all elements of a collection share a path.
    Class,
    /// Names, and for each element the key under which its collection holds it.
    Instance,
    /// Names, and for each element the mark `[i]`.
    Conf,
}

/// What a node adds to a path of the given style.
pub open spec fn segment(n: NodeView, style: PathStyle) -> Option<Seq<char>> {
    match n.mapping_key {
        Some(key) => match style {
            PathStyle::Class => None,
            PathStyle::Instance => Some(key),
            PathStyle::Conf => Some("[i]"@),
        },
        None => Some(n.name),
    }
}

/// The path of a node from its root down to itself.
pub open spec fn path_of(n: NodeView, style: PathStyle) -> Seq<Seq<char>>
    decreases n,
{
    let head = match n.belongs_to {
        Some(p) => path_of(*p, style),
        None => Seq::<Seq<char>>::empty(),
    };
    match segment(n, style) {
        Some(s) => head.push(s),
        None => head,
    }
}

/// The nodes above a node, the root first.
pub open spec fn ancestors_of(n: NodeView) -> Seq<NodeView>
    decreases n,
{
    match n.belongs_to {
        Some(p) => ancestors_of(*p).push(*p),
        None => Seq::<NodeView>::empty(),
    }
}

/// The keys under which the collections above a node, and the node itself, are
/// entered, the outermost first.
pub open spec fn keys_of(n: NodeView) -> Seq<Seq<char>>
    decreases n,
{
    let head = match n.belongs_to {
        Some(p) => keys_of(*p),
        None => Seq::<Seq<char>>::empty(),
    };
    match n.mapping_key {
        Some(key) => head.push(key),
        None => head,
    }
}

/// The parts laid end to end with `sep` between each two.
pub open spec fn joined(parts: Seq<Seq<char>>, sep: Seq<char>) -> Seq<char>
    decreases parts.len(),
{
    if parts.len() == 0 {
        Seq::<char>::empty()
    } else if parts.len() == 1 {
        parts[0]
    } else {
        joined(parts.drop_last(), sep) + sep + parts.last()
    }
}

/// The parts of a path as one text, with `sep` between each two.
pub fn join(parts: &Vec<String>, sep: &str) -> (out: String)
    ensures
        out@ == joined(texts(parts@), sep@),
{
    let mut out = String::new();
    let mut i: usize = 0;
    while i < parts.len()
        invariant
            i <= parts.len(),
            out@ == joined(texts(parts@).take(i as int), sep@),
        decreases parts.len() - i,
    {
        proof {
            let t = texts(parts@);
            assert(t.take(i + 1).drop_last() =~= t.take(i as int));
            assert(t.take(i + 1).last() == parts@[i as int]@);
            if i == 0 {
                assert(t.take(i + 1)[0] == parts@[i as int]@);
                assert(out@ + parts@[i as int]@ =~= parts@[i as int]@);
            }
        }
        if i > 0 {
            out.append(sep);
        }
        out.append(parts[i].as_str());
        i += 1;
    }
    assert(texts(parts@).take(i as int) =~= texts(parts@));
    out
}

/// Whether two optional texts are both absent or hold the same characters.
fn same_opt(a: &Option<String>, b: &Option<String>) -> (r: bool)
    ensures
        r == (opt_view(*a) == opt_view(*b)),
{
    match (a, b) {
        (Some(x), Some(y)) => same_text(x.as_str(), y.as_str()),
        (None, None) => true,
        _ => false,
    }
}

/// Whether two lists of texts hold the same texts in the same order.
pub fn same_texts(a: &Vec<String>, b: &Vec<String>) -> (r: bool)
    ensures
        r == (texts(a@) == texts(b@)),
{
    if a.len() != b.len() {
        assert(texts(a@).len() != texts(b@).len());
        return false;
    }
    let mut i: usize = 0;
    while i < a.len()
        invariant
            i <= a.len(),
            a.len() == b.len(),
            forall|k: int| 0 <= k < i ==> a@[k]@ == b@[k]@,
        decreases a.len() - i,
    {
        if !same_text(a[i].as_str(), b[i].as_str()) {
            assert(texts(a@)[i as int] != texts(b@)[i as int]);
            return false;
        }
        i += 1;
    }
    assert(texts(a@) =~= texts(b@));
    true
}

/// A copy of an optional text.
fn copy_opt(o: &Option<String>) -> (r: Option<String>)
    ensures
        r == *o,
{
    match o {
        Some(s) => Some(s.clone()),
        None => None,
    }
}

impl Clone for Executable {
    fn clone(&self) -> (e: Self)
        ensures
            e == *self,
    {
        self.duplicate()
    }
}

impl Executable {
    /// A node with the given parts.
    pub fn new(
        id: u64,
        name: String,
        fulltype: String,
        belongs_to: Option<Box<Executable>>,
        type_kind: TypeKind,
        value_type: String,
        offset: usize,
        relative_slot: String,
        mapping_key: Option<String>,
        key_type: Option<String>,
    ) -> (e: Self)
        ensures
            e == (Executable {
                id,
                name,
                fulltype,
                belongs_to,
                type_kind,
                value_type,
                offset,
                relative_slot,
                mapping_key,
                key_type,
            }),
    {
        Self {
            id,
            name,
            fulltype,
            belongs_to,
            type_kind,
            value_type,
            offset,
            relative_slot,
            mapping_key,
            key_type,
        }
    }

    /// Whether the node is a collection: an array or a mapping.
    pub fn is_iterish(&self) -> (b: bool)
        ensures
            b == self.type_kind.iterish(),
    {
        self.type_kind.is_iterish()
    }

    /// A copy of the node with its whole parent chain.
    pub fn duplicate(&self) -> (e: Self)
        ensures
            e == *self,
        decreases self,
    {
        let belongs_to = match &self.belongs_to {
            Some(p) => Some(Box::new(p.duplicate())),
            None => None,
        };
        Executable {
            id: self.id,
            name: self.name.clone(),
            fulltype: self.fulltype.clone(),
            belongs_to,
            type_kind: self.type_kind,
            value_type: self.value_type.clone(),
            offset: self.offset,
            relative_slot: self.relative_slot.clone(),
            mapping_key: copy_opt(&self.mapping_key),
            key_type: copy_opt(&self.key_type),
        }
    }

    /// Whether two nodes are the same in every part, parent chains included.
    pub fn same_as(&self, other: &Executable) -> (r: bool)
        ensures
            r == (self@ == other@),
        decreases self,
    {
        let parents = match (&self.belongs_to, &other.belongs_to) {
            (Some(p), Some(q)) => p.same_as(q),
            (None, None) => true,
            _ => false,
        };
        parents && self.id == other.id && same_text(self.name.as_str(), other.name.as_str())
            && same_text(self.fulltype.as_str(), other.fulltype.as_str()) && self.type_kind
            == other.type_kind && same_text(self.value_type.as_str(), other.value_type.as_str())
            && self.offset == other.offset && same_text(
            self.relative_slot.as_str(),
            other.relative_slot.as_str(),
        ) && same_opt(&self.mapping_key, &other.mapping_key) && same_opt(
            &self.key_type,
            &other.key_type,
        )
    }

    /// The nodes above this one, the root first.
    pub fn ancestors(&self) -> (v: Vec<Executable>)
        ensures
            node_views(v@) == ancestors_of(self@),
        decreases self,
    {
        match &self.belongs_to {
            Some(p) => {
                let mut v = p.ancestors();
                let ghost before = v@;
                v.push(p.duplicate());
                assert(node_views(v@) =~= node_views(before).push(p@));
                v
            },
            None => {
                let v: Vec<Executable> = Vec::new();
                assert(node_views(v@) =~= Seq::<NodeView>::empty());
                v
            },
        }
    }

    /// The node's path in the given style.
    pub fn paths(&self, style: PathStyle) -> (v: Vec<String>)
        ensures
            texts(v@) == path_of(self@, style),
        decreases self,
    {
        let mut v: Vec<String> = match &self.belongs_to {
            Some(p) => p.paths(style),
            None => Vec::new(),
        };
        let ghost before = v@;
        assert(self.belongs_to is None ==> texts(before) =~= Seq::<Seq<char>>::empty());
        match &self.mapping_key {
            Some(key) => match style {
                PathStyle::Class => {},
                PathStyle::Instance => {
                    v.push(key.clone());
                    assert(texts(v@) =~= texts(before).push(key@));
                },
                PathStyle::Conf => {
                    let mark = "[i]".to_owned();
                    v.push(mark);
                    assert(texts(v@) =~= texts(before).push("[i]"@));
                },
            },
            None => {
                v.push(self.name.clone());
                assert(texts(v@) =~= texts(before).push(self.name@));
            },
        }
        v
    }

    /// The keys under which the collections above this node, and the node itself, are
    /// entered, the outermost first.
    pub fn keys(&self) -> (v: Vec<String>)
        ensures
            texts(v@) == keys_of(self@),
        decreases self,
    {
        let mut v: Vec<String> = match &self.belongs_to {
            Some(p) => p.keys(),
            None => Vec::new(),
        };
        let ghost before = v@;
        assert(self.belongs_to is None ==> texts(before) =~= Seq::<Seq<char>>::empty());
        match &self.mapping_key {
            Some(key) => {
                v.push(key.clone());
                assert(texts(v@) =~= texts(before).push(key@));
            },
            None => {},
        }
        v
    }

    /// The chain of names from the root to this node, elements left out.
    pub fn class_paths(&self) -> (v: Vec<String>)
        ensures
            texts(v@) == path_of(self@, PathStyle::Class),
    {
        self.paths(PathStyle::Class)
    }

    /// The chain of names from the root to this node, with the key of each element.
    pub fn instance_paths(&self) -> (v: Vec<String>)
        ensures
            texts(v@) == path_of(self@, PathStyle::Instance),
    {
        self.paths(PathStyle::Instance)
    }

    /// The chain of names from the root to this node, with `[i]` for each element.
    pub fn paths_in_conf(&self) -> (v: Vec<String>)
        ensures
            texts(v@) == path_of(self@, PathStyle::Conf),
    {
        self.paths(PathStyle::Conf)
    }

    /// The instance path as one text, with dots between its parts.
    pub fn fullname(&self) -> (s: String)
        ensures
            s@ == joined(path_of(self@, PathStyle::Instance), "."@),
    {
        join(&self.instance_paths(), ".")
    }

    /// The path as the hint configuration writes it, with dots between its parts.
    pub fn fullname_in_conf(&self) -> (s: String)
        ensures
            s@ == joined(path_of(self@, PathStyle::Conf), "."@),
    {
        join(&self.paths_in_conf(), ".")
    }

    /// The constraint id: that of the node's class path.
    pub fn cid(&self) -> (id: u32)
        ensures
            id == constraint_id(path_of(self@, PathStyle::Class)),
    {
        ConfigUtil::calc_id(&self.class_paths())
    }

    /// The children of this node, each with this node and its parent chain as its
    /// parent: the members of a struct in declared order, or one element of a
    /// collection for each of `indices`, in their order.
    ///
    /// Fails first, whatever the kind of this node, with what `ASTNode::describe`
    /// reports of the node's own type; then with `MissingType` where the directory
    /// does not describe the type of a member or of the elements.
    pub fn children(&self, registry: &Registry, indices: Option<Vec<String>>) -> (r: Result<
        Vec<Executable>,
        DescriptorError,
    >)
        requires
            registry.wf(),
        ensures
            match r {
                Ok(v) => children_of(
                    self@,
                    registry@.types,
                    match indices {
                        Some(ks) => Some(texts(ks@)),
                        None => None,
                    },
                ) == Ok::<Seq<NodeView>, DescriptorError>(node_views(v@)),
                Err(e) => children_of(
                    self@,
                    registry@.types,
                    match indices {
                        Some(ks) => Some(texts(ks@)),
                        None => None,
                    },
                ) == Err::<Seq<NodeView>, DescriptorError>(e),
            },
    {
        let mut out: Vec<Executable> = Vec::new();
        match registry.types.fault(self.fulltype.as_str()) {
            Some(e) => {
                return Err(e);
            },
            None => {},
        }
        match self.type_kind {
            TypeKind::NaiveStruct => {
                let described = match registry.types.describe(self.fulltype.as_str()) {
                    Ok(d) => d,
                    Err(e) => {
                        return Err(e);
                    },
                };
                let members = described.members;
                let ghost wanted = members@.map_values(|m: MemberDescriptor| member_child(self@, m));
                let mut i: usize = 0;
                while i < members.len()
                    invariant
                        i <= members.len(),
                        registry.wf(),
                        self.type_kind is NaiveStruct,
                        descriptor_fault(registry@.types, self.fulltype@) is None,
                        members@ == registry@.types.members_of(self.fulltype@),
                        wanted == members@.map_values(
                            |m: MemberDescriptor| member_child(self@, m),
                        ),
                        forall|k: int|
                            0 <= k < i ==> registry@.types.has((#[trigger] members@[k]).type_str@),
                        node_views(out@) == wanted.take(i as int),
                    decreases members.len() - i,
                {
                    let m = &members[i];
                    if registry.types.get_node(m.type_str.as_str()).is_none() {
                        assert(!registry@.types.has(members@[i as int].type_str@));
                        return Err(DescriptorError::MissingType);
                    }
                    let parsed = ASTNode::parse_type_str(m.type_str.as_str());
                    let child = Executable {
                        id: derive_id(self.id, m.label.as_str()),
                        name: m.label.clone(),
                        fulltype: m.type_str.clone(),
                        belongs_to: Some(Box::new(self.duplicate())),
                        type_kind: ASTNode::type_kind(m.type_str.as_str()),
                        value_type: parsed.value_type,
                        offset: m.offset,
                        relative_slot: m.slot.clone(),
                        mapping_key: None,
                        key_type: None,
                    };
                    let ghost before = out@;
                    assert(child@ == member_child(self@, members@[i as int]));
                    out.push(child);
                    proof {
                        assert(node_views(out@) =~= node_views(before).push(wanted[i as int]));
                        assert(wanted.take(i + 1) =~= wanted.take(i as int).push(wanted[i as int]));
                    }
                    i += 1;
                }
                assert(wanted.take(i as int) =~= wanted);
                Ok(out)
            },
            TypeKind::Primitive => {
                assert(node_views(out@) =~= Seq::<NodeView>::empty());
                Ok(out)
            },
            _ => {
                let keys = match indices {
                    Some(ks) => ks,
                    None => {
                        assert(node_views(out@) =~= Seq::<NodeView>::empty());
                        return Ok(out);
                    },
                };
                if keys.len() == 0 {
                    assert(node_views(out@) =~= Seq::<NodeView>::empty());
                    assert(texts(keys@).len() == 0);
                    return Ok(out);
                }
                let parsed = ASTNode::parse_type_str(self.fulltype.as_str());
                if registry.types.get_node(parsed.value_type.as_str()).is_none() {
                    return Err(DescriptorError::MissingType);
                }
                let inner = ASTNode::parse_type_str(parsed.value_type.as_str());
                let kind = ASTNode::type_kind(parsed.value_type.as_str());
                let ghost wanted = texts(keys@).map_values(|k: Seq<char>| element_child(self@, k));
                let mut i: usize = 0;
                while i < keys.len()
                    invariant
                        i <= keys.len(),
                        descriptor_fault(registry@.types, self.fulltype@) is None,
                        parsed.parses(self.fulltype@),
                        inner.parses(parsed.value_type@),
                        kind == kind_of(parsed.value_type@),
                        wanted == texts(keys@).map_values(|k: Seq<char>| element_child(self@, k)),
                        node_views(out@) == wanted.take(i as int),
                    decreases keys.len() - i,
                {
                    proof {
                        reveal_strlit("0");
                        assert("0"@ =~= seq!['0']);
                    }
                    let child = Executable {
                        id: derive_id(self.id, keys[i].as_str()),
                        name: self.name.clone(),
                        fulltype: parsed.value_type.clone(),
                        belongs_to: Some(Box::new(self.duplicate())),
                        type_kind: kind,
                        value_type: inner.value_type.clone(),
                        offset: 0,
                        relative_slot: "0".to_owned(),
                        mapping_key: Some(keys[i].clone()),
                        key_type: copy_opt(&parsed.key_type),
                    };
                    let ghost before = out@;
                    assert(child@ == element_child(self@, keys@[i as int]@));
                    out.push(child);
                    proof {
                        assert(node_views(out@) =~= node_views(before).push(wanted[i as int]));
                        assert(wanted.take(i + 1) =~= wanted.take(i as int).push(wanted[i as int]));
                    }
                    i += 1;
                }
                assert(wanted.take(i as int) =~= wanted);
                Ok(out)
            },
        }
    }

    /// Whether the bounds of this collection are recorded.
    pub fn is_iter_readied(&self, registry: &Registry) -> (b: bool)
        ensures
            b == registry@.bounds.contains_key(self.id),
    {
        broadcast use vstd::std_specs::hash::group_hash_axioms;

        registry.iterish_from_to.contains_key(&self.id)
    }

    /// The absolute slot of this node, computed from the recorded slot of its parent.
    ///
    /// Under a struct it is the parent's slot plus the relative slot modulo 2^256;
    /// under a collection it is the Keccak-256 digest of the node's key followed by
    /// the parent's slot.
    pub fn calculate_absolute_slot(&self, registry: &Registry) -> (r: Result<
        String,
        InvariantError,
    >)
        ensures
            match r {
                Ok(slot) => slot_of(self@, registry@.slots) == Ok::<Seq<char>, InvariantError>(
                    slot@,
                ) && is_slot(slot@),
                Err(e) => slot_of(self@, registry@.slots) == Err::<Seq<char>, InvariantError>(e),
            },
    {
        let parent = match &self.belongs_to {
            Some(p) => p,
            None => {
                return Err(InvariantError::MissingParentSlot);
            },
        };
        proof {
            let pv = node_view(**parent);
            assert(self@.belongs_to == Some(Box::new(pv)));
            assert(pv.id == parent.id && pv.type_kind == parent.type_kind);
        }
        let parent_slot = match registry.absolute_slots.get(parent.id) {
            Some(s) => s,
            None => {
                return Err(InvariantError::MissingParentSlot);
            },
        };
        if parent.is_iterish() {
            let key = match &self.mapping_key {
                Some(k) => k,
                None => {
                    return match slot_bytes(parent_slot.as_str()) {
                        Ok(_) => Err(InvariantError::MissingKey),
                        Err(_) => Err(InvariantError::MalformedSlot),
                    };
                },
            };
            match element_slot(parent_slot.as_str(), key.as_str()) {
                Ok(slot) => Ok(slot),
                Err(_) => Err(InvariantError::MalformedSlot),
            }
        } else {
            match child_slot(parent_slot.as_str(), self.relative_slot.as_str()) {
                Ok(slot) => Ok(slot),
                Err(_) => Err(InvariantError::MalformedSlot),
            }
        }
    }
}

} // verus!
