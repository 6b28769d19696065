//! A minimal entity-component-system core: generation-checked entity
//! identifiers, archetype tables keyed by unordered component sets, a
//! component registry, a deferred command buffer, compiled queries with
//! cached match lists, an observer notification log, and frame pacing.

pub mod types;
pub mod sets;
pub mod events;
pub mod query;
pub mod world;
pub mod pipeline;
pub mod opaque;
pub mod laws;
