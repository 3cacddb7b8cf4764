//! The entity table of the bevy world, which tells which entities are alive.
use bevy::ecs::entity::{Entities, Entity};
use vstd::prelude::*;

verus! {

/// bevy's table of entities, carried through opaque.
#[verifier::external_type_specification]
#[verifier::external_body]
pub struct ExEntities(Entities);

/// `Entities::contains` on the entity with the given bits (`Entity::from_bits`:
/// generation above, index below): whether the table holds that entity, spawned and
/// not despawned, or reserved.  Nothing is stated of the answer: other systems may
/// reserve entities through a shared reference to the same table while it is
/// borrowed here, so two calls on one table and one entity may answer differently.
/// The functions that call it state their result for the answer that came back.
#[verifier::external_body]
pub fn entity_is_live(entities: &Entities, e: u64) -> (r: bool) {
    entities.contains(Entity::from_bits(e))
}

} // verus!
