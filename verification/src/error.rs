use vstd::prelude::*;

verus! {

/// Why a storage location could not be computed from its inputs.
#[derive(Clone, Copy, Debug, PartialEq, Eq, Structural)]
pub enum SlotError {
    /// The slot text does not have 64 characters.
    InvalidLength,
    /// The slot text has 64 characters, one of which is not a lowercase hex digit.
    NonHex,
    /// The relative slot is not a decimal number that fits 64 bits.
    InvalidNumber,
}

/// A fault in the hint configuration.
#[derive(Clone, Copy, Debug, PartialEq, Eq, Structural)]
pub enum ConfigError {
    /// A hint expression is not a sentence of the grammar.
    MalformedHint,
    /// A hint names something the schema does not hold.
    UnknownName,
    /// Two different class paths share one constraint id, or two different nodes one
    /// identity.
    Collision,
    /// A collection of the schema has no bounds hint, or a hint lacks a bound.
    MissingHint,
}

/// A fault in the type directory.
#[derive(Clone, Copy, Debug, PartialEq, Eq, Structural)]
pub enum DescriptorError {
    /// A type name is referenced that the directory does not describe.
    MissingType,
    /// The directory declares members for a type name that is not of the struct form.
    UnsupportedEnvelope,
    /// The compiled accessor holds no base slot.
    NoBaseSlots,
}

/// A fault while reading storage words from the remote node.
#[derive(Clone, Copy, Debug, PartialEq, Eq, Structural)]
pub enum ReadError {
    Transport,
    Timeout,
    /// The response does not hold one 64-character word per requested slot.
    Malformed,
    Cancelled,
}

/// A fault while evaluating a hint expression.
#[derive(Clone, Copy, Debug, PartialEq, Eq, Structural)]
pub enum EvaluationError {
    DivideByZero,
    /// A name is known but has no value yet; the engine tries again a step later.
    Unresolved,
    /// A name is not part of the schema.
    UnknownName,
}

/// A broken rule of the traversal itself.
#[derive(Clone, Copy, Debug, PartialEq, Eq, Structural)]
pub enum InvariantError {
    /// A slot, value, bound or output was written twice with different contents.
    DoubleWrite,
    /// A node was queued before its parent's slot was recorded.
    MissingParentSlot,
    /// An element of a collection was queued without the key it is held under.
    MissingKey,
    /// A slot, a value or a relative slot is not a well-formed text of its kind.
    MalformedSlot,
    /// Work was still queued when the step budget ran out.
    StepLimitExceeded,
}

/// Every way a run can fail.
#[derive(Clone, Copy, Debug, PartialEq, Eq, Structural)]
pub enum ExtractError {
    Config(ConfigError),
    Descriptor(DescriptorError),
    Read(ReadError),
    Evaluation(EvaluationError),
    Invariant(InvariantError),
}

} // verus!
