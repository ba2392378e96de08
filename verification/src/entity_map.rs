//! The table that carries entity identifiers from one identity space to another.

use vstd::prelude::*;

verus! {

#[verifier::external_type_specification]
#[verifier::external_body]
pub struct ExEntityMap(bevy::ecs::entity::EntityMap);

#[verifier::external_type_specification]
#[verifier::external_body]
pub struct ExMapEntitiesError(bevy::ecs::entity::MapEntitiesError);

/// The pairs of a mapping table: the bits of each old entity with the bits
/// of its new one.
pub uninterp spec fn map_pairs(mapping: bevy::ecs::entity::EntityMap) -> Map<u64, u64>;

/// `EntityMap::get`, on the entity that `Entity::from_bits` makes of
/// `entity`: the bits (`Entity::to_bits`) of its new entity where the table
/// holds one, the table's error where it holds none.
#[verifier::external_body]
pub(crate) fn mapped(mapping: &bevy::ecs::entity::EntityMap, entity: u64) -> (found: Result<
    u64,
    bevy::ecs::entity::MapEntitiesError,
>)
    ensures
        match found {
            Ok(target) => map_pairs(*mapping).contains_key(entity) && map_pairs(*mapping)[entity]
                == target,
            Err(_) => !map_pairs(*mapping).contains_key(entity),
        },
{
    match mapping.get(bevy::ecs::entity::Entity::from_bits(entity)) {
        Ok(target) => Ok(target.to_bits()),
        Err(error) => Err(error),
    }
}

} // verus!
