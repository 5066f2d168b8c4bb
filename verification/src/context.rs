use vstd::prelude::*;
use crate::registry::Registry;

verus! {

/// What a run works on.
#[derive(Clone, Debug)]
pub struct Context {
    pub registry: Registry,
}

} // verus!
