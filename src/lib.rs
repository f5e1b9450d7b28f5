//! Sparse-set entity-component storage: generational entities, per-kind pools that hold
//! any number of instances per entity, multi-kind queries, and a record form of a world.
use vstd::prelude::*;

pub mod pool;
pub mod world;
pub mod query;
pub mod record;
pub mod time;
pub mod path;
pub mod resource;

verus! {

/// A handle on a logical object of a world. `id` indexes the world's slot table and
/// `version` tells apart the successive occupants of that slot.
#[derive(Clone, Copy, Debug, PartialEq, Eq, Structural)]
pub struct Entity {
    pub id: usize,
    pub version: u32,
}

} // verus!
