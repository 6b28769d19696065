//! Shared value types: entity identifiers, error codes, event kinds,
//! component descriptors and deferred commands.

use vstd::prelude::*;

verus! {

/// An entity identifier: a dense slot index paired with the generation the
/// slot had when the identifier was handed out. The identifier is valid only
/// while the slot still carries the same generation.
#[derive(Clone, Copy, PartialEq, Eq, Structural, Debug, Hash)]
pub struct Entity {
    index: usize,
    generation: u64,
}

impl Entity {
    pub closed spec fn spec_index(self) -> int {
        self.index as int
    }

    pub closed spec fn spec_generation(self) -> u64 {
        self.generation
    }

    /// Two identifiers with the same slot index and generation are the same
    /// identifier.
    pub proof fn lemma_ext(a: Entity, b: Entity)
        requires
            a.spec_index() == b.spec_index(),
            a.spec_generation() == b.spec_generation(),
        ensures
            a == b,
    {
    }

    pub(crate) fn make(index: usize, generation: u64) -> (r: Entity)
        ensures
            r.spec_index() == index as int,
            r.spec_generation() == generation,
    {
        Entity { index, generation }
    }

    pub(crate) fn slot_index(self) -> (r: usize)
        ensures
            r as int == self.spec_index(),
    {
        self.index
    }

    pub(crate) fn gen_value(self) -> (r: u64)
        ensures
            r == self.spec_generation(),
    {
        self.generation
    }
}

/// The recoverable error codes of the core. A failed operation leaves the
/// world in its prior state.
#[derive(Clone, Copy, PartialEq, Eq, Structural, Debug)]
pub enum EcsError {
    /// The identifier's generation no longer matches its slot.
    StaleEntity,
    /// The identifier's slot index was never allocated.
    UnknownEntity,
    /// A component was re-registered with an incompatible layout.
    ComponentConflict,
    /// A query variable index does not name a declared variable.
    InvalidVariable,
    /// A malformed term list, group spec or component identifier.
    InvalidParameter,
}

/// The kind of structural transition an observer can subscribe to.
#[derive(Clone, Copy, PartialEq, Eq, Structural, Debug)]
pub enum EventKind {
    OnAdd,
    OnRemove,
    OnSet,
}

/// Layout metadata for a registered component kind. `type_key` is the
/// caller's stable identifier for the logical type; `size` and `align` fix
/// the byte layout of one value. Descriptors are immutable once registered.
#[derive(Clone, Copy, PartialEq, Eq, Structural, Debug)]
pub struct ComponentDesc {
    pub type_key: u64,
    pub size: usize,
    pub align: usize,
}

/// A structural operation recorded while a deferred scope is open, replayed
/// in first-in first-out order when the outermost scope closes.
pub enum Command {
    AddComp(Entity, u64),
    RemoveComp(Entity, u64),
    SetComp(Entity, u64, Vec<u8>),
    DestroyEntity(Entity),
}

} // verus!
