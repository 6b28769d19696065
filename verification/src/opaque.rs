//! Opaque-type descriptors: a builder that records how a component whose
//! layout the engine cannot see maps onto a reflected type. The engine only
//! carries the record; interpreting it is the embedding's business.

use vstd::prelude::*;

verus! {

/// A descriptor under construction for an opaque component type: the
/// component it describes and the entity of the type that describes its
/// kind and structure.
pub struct Opaque {
    component: u64,
    type_entity: u64,
}

impl Opaque {
    /// The component this descriptor is for.
    pub closed spec fn spec_component(self) -> u64 {
        self.component
    }

    /// The entity of the type standing for the opaque type's structure;
    /// zero until `as_type` sets it.
    pub closed spec fn spec_type_entity(self) -> u64 {
        self.type_entity
    }

    /// Starts a descriptor for `component`, with no type set yet.
    pub fn new(component: u64) -> (r: Opaque)
        ensures
            r.spec_component() == component,
            r.spec_type_entity() == 0,
    {
        Opaque { component, type_entity: 0 }
    }

    /// Records the type that describes the opaque type's kind and
    /// structure.
    pub fn as_type(&mut self, type_entity: u64)
        ensures
            final(self).spec_component() == old(self).spec_component(),
            final(self).spec_type_entity() == type_entity,
    {
        self.type_entity = type_entity;
    }

    /// Reads the component this descriptor is for.
    pub fn component_id(&self) -> (c: u64)
        ensures
            c == self.spec_component(),
    {
        self.component
    }

    /// Reads the recorded type entity.
    pub fn type_entity(&self) -> (t: u64)
        ensures
            t == self.spec_type_entity(),
    {
        self.type_entity
    }
}

} // verus!
