use vstd::prelude::*;
use crate::error::DescriptorError;
use crate::config_util::texts;
use crate::text::{chars_of, has_prefix, same_text, starts_with, string_of_range};
use crate::type_kind::TypeKind;

verus! {

/// Scanning `s` from `i` with `depth` brackets open: the position of the `)` that
/// closes the bracket around `i`, or `s.len()` where there is none.
pub open spec fn closing_at(s: Seq<char>, i: int, depth: nat) -> int
    decreases s.len() - i,
{
    if i < 0 || i >= s.len() {
        s.len() as int
    } else if s[i] == '(' {
        closing_at(s, i + 1, depth + 1)
    } else if s[i] == ')' {
        if depth == 0 {
            i
        } else {
            closing_at(s, i + 1, (depth - 1) as nat)
        }
    } else {
        closing_at(s, i + 1, depth)
    }
}

/// Scanning `s` from `i` with `depth` brackets open: the position of the first `,`
/// outside any inner bracket and before the bracket around `i` closes, or `s.len()`
/// where there is none.
pub open spec fn comma_at(s: Seq<char>, i: int, depth: nat) -> int
    decreases s.len() - i,
{
    if i < 0 || i >= s.len() {
        s.len() as int
    } else if s[i] == '(' {
        comma_at(s, i + 1, depth + 1)
    } else if s[i] == ')' {
        if depth == 0 {
            s.len() as int
        } else {
            comma_at(s, i + 1, (depth - 1) as nat)
        }
    } else if s[i] == ',' && depth == 0 {
        i
    } else {
        comma_at(s, i + 1, depth)
    }
}

/// The element type of `t_array(<elem>)...`, for a type name of that form.
pub open spec fn array_element(s: Seq<char>) -> Option<Seq<char>> {
    if starts_with(s, "t_array("@) && closing_at(s, 8, 0) < s.len() {
        Some(s.subrange(8, closing_at(s, 8, 0)))
    } else {
        None
    }
}

/// The key and value types of `t_mapping(<key>,<val>)...`, for a type name of that form.
pub open spec fn mapping_parts(s: Seq<char>) -> Option<(Seq<char>, Seq<char>)> {
    if starts_with(s, "t_mapping("@) && comma_at(s, 10, 0) < s.len() && closing_at(s, 10, 0)
        < s.len() {
        Some(
            (
                s.subrange(10, comma_at(s, 10, 0)),
                s.subrange(comma_at(s, 10, 0) + 1, closing_at(s, 10, 0)),
            ),
        )
    } else {
        None
    }
}

/// The name in `t_struct(<Name>)...`, for a type name of that form.
pub open spec fn struct_name(s: Seq<char>) -> Option<Seq<char>> {
    if starts_with(s, "t_struct("@) && closing_at(s, 9, 0) < s.len() {
        Some(s.subrange(9, closing_at(s, 9, 0)))
    } else {
        None
    }
}

/// The kind that a type name denotes by its leading form.
pub open spec fn kind_of(s: Seq<char>) -> TypeKind {
    if array_element(s) is Some {
        TypeKind::Array
    } else if mapping_parts(s) is Some {
        TypeKind::Mapping
    } else if struct_name(s) is Some {
        TypeKind::NaiveStruct
    } else {
        TypeKind::Primitive
    }
}

/// The type of what a node of this type holds: the element or value type of a
/// collection, the type itself of anything else.
pub open spec fn value_type_of(s: Seq<char>) -> Seq<char> {
    if array_element(s) is Some {
        array_element(s)->0
    } else {
        match mapping_parts(s) {
            Some((_, value)) => value,
            None => s,
        }
    }
}

/// The key type of a mapping type name; `None` for any other type name.
pub open spec fn key_type_of(s: Seq<char>) -> Option<Seq<char>> {
    if array_element(s) is Some {
        None
    } else {
        match mapping_parts(s) {
            Some((key, _)) => Some(key),
            None => None,
        }
    }
}

/// The view of an optional text.
pub open spec fn opt_view(o: Option<String>) -> Option<Seq<char>> {
    match o {
        Some(s) => Some(s@),
        None => None,
    }
}

/// A type name taken apart by its leading form.
#[derive(Clone, Debug, PartialEq, Eq)]
pub struct ParsedASTType {
    pub envelope: Option<TypeKind>,
    pub key_type: Option<String>,
    pub value_type: String,
}

impl ParsedASTType {
    /// Whether this is what `type_str` parses to.
    pub open spec fn parses(&self, type_str: Seq<char>) -> bool {
        &&& self.value_type@ == value_type_of(type_str)
        &&& self.envelope == (if kind_of(type_str).iterish() {
            Some(kind_of(type_str))
        } else {
            None
        })
        &&& match self.key_type {
            Some(k) => key_type_of(type_str) == Some(k@),
            None => key_type_of(type_str) is None,
        }
    }
}

/// One member of a struct type, as the type directory describes it.
#[derive(Clone, Debug, PartialEq, Eq)]
pub struct MemberDescriptor {
    pub label: String,
    /// The member's slot relative to the struct's, a decimal numeral.
    pub slot: String,
    /// The member's byte offset within its slot.
    pub offset: usize,
    pub type_str: String,
}

/// What the type directory says of one type name.
#[derive(Clone, Debug, PartialEq, Eq)]
pub struct TypeDescriptor {
    pub kind: TypeKind,
    /// The key type, for a mapping.
    pub key_type: Option<String>,
    /// The element or value type, for an array or a mapping.
    pub value_type: Option<String>,
    /// The members in declared order, for a struct.
    pub members: Vec<MemberDescriptor>,
}

/// The type directory: a read-only index from type name to the members declared for
/// it, which are none for any type but a struct.
#[derive(Clone, Debug, PartialEq, Eq)]
pub struct ASTNode {
    pub names: Vec<String>,
    pub members: Vec<Vec<MemberDescriptor>>,
}

/// The first position at or after `from` at which `names` holds `t`, or `names.len()`.
pub open spec fn first_text(names: Seq<Seq<char>>, t: Seq<char>, from: int) -> int
    decreases names.len() - from,
{
    if from < 0 || from >= names.len() {
        names.len() as int
    } else if names[from] == t {
        from
    } else {
        first_text(names, t, from + 1)
    }
}

/// The labels of some members.
pub open spec fn labels(members: Seq<MemberDescriptor>) -> Seq<Seq<char>> {
    members.map_values(|m: MemberDescriptor| m.label@)
}

impl MemberDescriptor {
    /// A member with the given label, relative slot, byte offset and type.
    pub fn new(label: String, slot: String, offset: usize, type_str: String) -> (m: Self)
        ensures
            m == (MemberDescriptor { label, slot, offset, type_str }),
    {
        MemberDescriptor { label, slot, offset, type_str }
    }

    /// A copy of the member.
    pub fn duplicate(&self) -> (m: Self)
        ensures
            m == *self,
    {
        MemberDescriptor {
            label: self.label.clone(),
            slot: self.slot.clone(),
            offset: self.offset,
            type_str: self.type_str.clone(),
        }
    }
}

/// The scan of a bracketed part of a type name: where the first outer comma and the
/// closing bracket stand.
fn scan_brackets(v: &Vec<char>, start: usize) -> (r: (usize, usize))
    requires
        start <= v.len(),
    ensures
        r.0 == comma_at(v@, start as int, 0),
        r.1 == closing_at(v@, start as int, 0),
{
    let n = v.len();
    let mut i: usize = start;
    let mut depth: usize = 0;
    let mut comma: usize = n;
    let mut seen_comma = false;
    while i < n
        invariant
            n == v.len(),
            start <= i <= n,
            depth <= i - start,
            closing_at(v@, start as int, 0) == closing_at(v@, i as int, depth as nat),
            !seen_comma ==> comma_at(v@, start as int, 0) == comma_at(v@, i as int, depth as nat),
            seen_comma ==> comma == comma_at(v@, start as int, 0),
            !seen_comma ==> comma == n,
        decreases n - i,
    {
        let c = v[i];
        if c == '(' {
            depth += 1;
        } else if c == ')' {
            if depth == 0 {
                return (comma, i);
            }
            depth -= 1;
        } else if c == ',' && depth == 0 && !seen_comma {
            comma = i;
            seen_comma = true;
        }
        i += 1;
    }
    (comma, n)
}

/// What is wrong with the description of a type name, if anything: `MissingType`
/// where the directory does not describe the name, `UnsupportedEnvelope` where it
/// declares members for a name that is not of the struct form.
pub open spec fn descriptor_fault(types: ASTNode, type_str: Seq<char>) -> Option<DescriptorError> {
    if !types.has(type_str) {
        Some(DescriptorError::MissingType)
    } else if kind_of(type_str) != TypeKind::NaiveStruct && types.members_of(type_str).len() > 0 {
        Some(DescriptorError::UnsupportedEnvelope)
    } else {
        None
    }
}

impl ASTNode {
    /// Whether the directory has one list of members for each name.
    pub open spec fn wf(&self) -> bool {
        self.names.len() == self.members.len()
    }

    /// Where the directory describes `type_str`: the first entry of that name, or
    /// the number of entries where there is none.
    pub open spec fn position(&self, type_str: Seq<char>) -> int {
        first_text(texts(self.names@), type_str, 0)
    }

    /// Whether the directory describes `type_str`.
    pub open spec fn has(&self, type_str: Seq<char>) -> bool {
        self.position(type_str) < self.names.len()
    }

    /// The members that the directory declares for `type_str`; none where it does not
    /// describe the type.
    pub open spec fn members_of(&self, type_str: Seq<char>) -> Seq<MemberDescriptor> {
        if self.has(type_str) && self.wf() {
            self.members@[self.position(type_str)]@
        } else {
            Seq::<MemberDescriptor>::empty()
        }
    }

    /// An empty directory.
    pub fn new() -> (dir: Self)
        ensures
            dir.wf(),
            dir.names@.len() == 0,
    {
        ASTNode { names: Vec::new(), members: Vec::new() }
    }

    /// Adds the description of one type behind those already there. A name that the
    /// directory already describes keeps its first description.
    pub fn insert(&mut self, type_str: String, members: Vec<MemberDescriptor>)
        requires
            old(self).wf(),
        ensures
            final(self).wf(),
            final(self).names@ == old(self).names@.push(type_str),
            final(self).members@ == old(self).members@.push(members),
    {
        self.names.push(type_str);
        self.members.push(members);
    }

    /// The position of the first entry for `type_str`.
    fn find(&self, type_str: &str) -> (i: usize)
        ensures
            i == self.position(type_str@),
            i <= self.names.len(),
    {
        let mut i: usize = 0;
        while i < self.names.len()
            invariant
                i <= self.names.len(),
                self.position(type_str@) == first_text(texts(self.names@), type_str@, i as int),
            decreases self.names.len() - i,
        {
            if same_text(self.names[i].as_str(), type_str) {
                return i;
            }
            i += 1;
        }
        i
    }

    /// The members declared for a type name, where the directory describes it.
    pub fn get_node(&self, type_str: &str) -> (r: Option<&Vec<MemberDescriptor>>)
        requires
            self.wf(),
        ensures
            r is Some <==> self.has(type_str@),
            r matches Some(m) ==> m@ == self.members_of(type_str@),
    {
        let i = self.find(type_str);
        if i < self.names.len() {
            Some(&self.members[i])
        } else {
            None
        }
    }

    /// What is wrong with the description of a type name, if anything.
    pub fn fault(&self, type_str: &str) -> (r: Option<DescriptorError>)
        requires
            self.wf(),
        ensures
            r == descriptor_fault(*self, type_str@),
    {
        let i = self.find(type_str);
        if i >= self.names.len() {
            return Some(DescriptorError::MissingType);
        }
        if self.members[i].len() > 0 && ASTNode::type_kind(type_str) != TypeKind::NaiveStruct {
            return Some(DescriptorError::UnsupportedEnvelope);
        }
        None
    }

    /// What the directory says of a type name: its kind and parts by the form of the
    /// name, and the members declared for it.
    ///
    /// Fails with `MissingType` where the directory does not describe the name, and
    /// with `UnsupportedEnvelope` where it declares members for a name that is not
    /// of the struct form.
    pub fn describe(&self, type_str: &str) -> (r: Result<TypeDescriptor, DescriptorError>)
        requires
            self.wf(),
        ensures
            match r {
                Ok(_) => descriptor_fault(*self, type_str@) is None,
                Err(e) => descriptor_fault(*self, type_str@) == Some(e),
            },
            match r {
                Ok(d) => {
                    &&& self.has(type_str@)
                    &&& d.kind == kind_of(type_str@)
                    &&& opt_view(d.key_type) == key_type_of(type_str@)
                    &&& opt_view(d.value_type) == (if kind_of(type_str@).iterish() {
                        Some(value_type_of(type_str@))
                    } else {
                        None
                    })
                    &&& d.members@ == self.members_of(type_str@)
                    &&& (d.kind != TypeKind::NaiveStruct ==> d.members@.len() == 0)
                },
                Err(DescriptorError::MissingType) => !self.has(type_str@),
                Err(DescriptorError::UnsupportedEnvelope) => {
                    &&& self.has(type_str@)
                    &&& kind_of(type_str@) != TypeKind::NaiveStruct
                    &&& self.members_of(type_str@).len() > 0
                },
                Err(DescriptorError::NoBaseSlots) => false,
            },
    {
        let i = self.find(type_str);
        if i >= self.names.len() {
            return Err(DescriptorError::MissingType);
        }
        let kind = ASTNode::type_kind(type_str);
        let declared = &self.members[i];
        if declared.len() > 0 && kind != TypeKind::NaiveStruct {
            return Err(DescriptorError::UnsupportedEnvelope);
        }
        let mut members: Vec<MemberDescriptor> = Vec::new();
        let mut k: usize = 0;
        while k < declared.len()
            invariant
                k <= declared.len(),
                members@ == declared@.take(k as int),
            decreases declared.len() - k,
        {
            members.push(declared[k].duplicate());
            assert(declared@.take(k + 1) =~= declared@.take(k as int).push(declared@[k as int]));
            k += 1;
        }
        assert(declared@.take(k as int) =~= declared@);
        let parsed = ASTNode::parse_type_str(type_str);
        let value_type = match parsed.envelope {
            Some(_) => Some(parsed.value_type),
            None => None,
        };
        Ok(TypeDescriptor { kind, key_type: parsed.key_type, value_type, members })
    }

    /// Takes a type name apart: the envelope of an array or a mapping, the key type
    /// of a mapping, and the element or value type; for any other type name the
    /// name itself, without an envelope.
    pub fn parse_type_str(type_str: &str) -> (parsed: ParsedASTType)
        ensures
            parsed.parses(type_str@),
    {
        let v = chars_of(type_str);
        let n = v.len();
        if has_prefix(&v, "t_array(") {
            proof {
                reveal_strlit("t_array(");
            }
            let (_, close) = scan_brackets(&v, 8);
            proof {
                lemma_closing_after(v@, 8, 0);
            }
            if close < n {
                return ParsedASTType {
                    envelope: Some(TypeKind::Array),
                    key_type: None,
                    value_type: string_of_range(&v, 8, close),
                };
            }
        }
        if has_prefix(&v, "t_mapping(") {
            proof {
                reveal_strlit("t_mapping(");
            }
            let (comma, close) = scan_brackets(&v, 10);
            if comma < n && close < n {
                proof {
                    lemma_comma_before_closing(v@, 10, 0);
                }
                return ParsedASTType {
                    envelope: Some(TypeKind::Mapping),
                    key_type: Some(string_of_range(&v, 10, comma)),
                    value_type: string_of_range(&v, comma + 1, close),
                };
            }
        }
        assert(v@.subrange(0, n as int) =~= v@);
        ParsedASTType { envelope: None, key_type: None, value_type: string_of_range(&v, 0, n) }
    }

    /// The kind of a type name: array, mapping, struct, or else primitive.
    pub fn type_kind(type_str: &str) -> (kind: TypeKind)
        ensures
            kind == kind_of(type_str@),
    {
        let parsed = ASTNode::parse_type_str(type_str);
        match parsed.envelope {
            Some(envelope) => envelope,
            None => {
                let v = chars_of(type_str);
                if has_prefix(&v, "t_struct(") {
                    proof {
                        reveal_strlit("t_struct(");
                    }
                    let (_, close) = scan_brackets(&v, 9);
                    if close < v.len() {
                        return TypeKind::NaiveStruct;
                    }
                }
                TypeKind::Primitive
            },
        }
    }
}

/// The element or value type of a collection type name is shorter than the name.
pub proof fn lemma_value_type_shorter(s: Seq<char>)
    requires
        kind_of(s).iterish(),
    ensures
        value_type_of(s).len() < s.len(),
{
    reveal_strlit("t_array(");
    reveal_strlit("t_mapping(");
    if array_element(s) is Some {
        lemma_closing_after(s, 8, 0);
    } else {
        lemma_comma_before_closing(s, 10, 0);
    }
}

/// An outer comma, where there is one, stands before the closing bracket.
proof fn lemma_comma_before_closing(s: Seq<char>, i: int, depth: nat)
    requires
        0 <= i <= s.len(),
        comma_at(s, i, depth) < s.len(),
        closing_at(s, i, depth) < s.len(),
    ensures
        i <= comma_at(s, i, depth) < closing_at(s, i, depth),
    decreases s.len() - i,
{
    if i < s.len() {
        if s[i] == '(' {
            lemma_comma_before_closing(s, i + 1, depth + 1);
        } else if s[i] == ')' {
            if depth > 0 {
                lemma_comma_before_closing(s, i + 1, (depth - 1) as nat);
            }
        } else if s[i] == ',' && depth == 0 {
            lemma_closing_after(s, i + 1, depth);
        } else {
            lemma_comma_before_closing(s, i + 1, depth);
        }
    }
}

/// The closing bracket found from `i` on stands at `i` or later.
proof fn lemma_closing_after(s: Seq<char>, i: int, depth: nat)
    requires
        0 <= i <= s.len(),
    ensures
        i <= closing_at(s, i, depth) <= s.len(),
    decreases s.len() - i,
{
    if i < s.len() {
        if s[i] == '(' {
            lemma_closing_after(s, i + 1, depth + 1);
        } else if s[i] == ')' {
            if depth > 0 {
                lemma_closing_after(s, i + 1, (depth - 1) as nat);
            }
        } else {
            lemma_closing_after(s, i + 1, depth);
        }
    }
}

} // verus!
