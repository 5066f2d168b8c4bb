use vstd::prelude::*;

verus! {

/// The four shapes a storage type can take.
#[derive(Clone, Copy, Debug, PartialEq, Eq, Structural)]
pub enum TypeKind {
    Mapping,
    Array,
    NaiveStruct,
    Primitive,
}

impl TypeKind {
    /// Whether values of this kind are collections whose elements live at hashed slots.
    pub open spec fn iterish(&self) -> bool {
        self is Mapping || self is Array
    }

    /// Whether values of this kind are collections: arrays and mappings are.
    #[verifier::when_used_as_spec(iterish)]
    pub fn is_iterish(&self) -> (b: bool)
        ensures
            b == self.iterish(),
    {
        match self {
            TypeKind::Mapping | TypeKind::Array => true,
            TypeKind::NaiveStruct | TypeKind::Primitive => false,
        }
    }
}

} // verus!
