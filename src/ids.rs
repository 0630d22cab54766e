//! Identifier types: entities, component kinds, clients.
use vstd::prelude::*;

verus! {

/// A dense handle for an entity; entities are numbered upward from zero.
#[derive(Clone, Copy, Debug, PartialEq, Eq, Structural, PartialOrd, Ord, Hash)]
pub struct EntityId(pub u32);

/// The stable identifier of a component type, derived from its type name.
#[derive(Clone, Copy, Debug, PartialEq, Eq, Structural, PartialOrd, Ord, Hash)]
pub struct ComponentId(pub u64);

/// An entity id as the server numbers it.
#[derive(Clone, Copy, Debug, PartialEq, Eq, Structural, PartialOrd, Ord, Hash)]
pub struct ServerEntityId(pub EntityId);

/// The identity of a connected client, supplied by the connection layer.
#[derive(Clone, Copy, Debug, PartialEq, Eq, Structural, PartialOrd, Ord, Hash)]
pub struct ClientId(pub u32);

/// An identifier that can be compared in executable code.
pub trait IdKey: Copy + Sized {
    fn same_id(&self, other: &Self) -> (r: bool)
        ensures
            r == (*self == *other),
    ;
}

impl IdKey for EntityId {
    fn same_id(&self, other: &Self) -> (r: bool) {
        self.0 == other.0
    }
}

impl IdKey for ComponentId {
    fn same_id(&self, other: &Self) -> (r: bool) {
        self.0 == other.0
    }
}

impl IdKey for ClientId {
    fn same_id(&self, other: &Self) -> (r: bool) {
        self.0 == other.0
    }
}

/// The name for the 64-bit FNV-1a hash of a type name.
pub uninterp spec fn type_name_hash(name: Seq<char>) -> u64;

/// Relies on const_fnv1a_hash::fnv1a_hash_str_64: a 64-bit hash that depends
/// on the text alone, so that every process derives the same id from one name.
#[verifier::external_body]
fn hash_type_name(name: &str) -> (r: u64)
    ensures
        r == type_name_hash(name@),
{
    const_fnv1a_hash::fnv1a_hash_str_64(name)
}

impl EntityId {
    /// The entity id numbered `index`.
    pub fn from_index(index: u32) -> (r: EntityId)
        ensures
            r.0 == index,
    {
        EntityId(index)
    }
}

impl ComponentId {
    /// The id of the component type with the given name.
    pub fn from_type_name(name: &str) -> (r: ComponentId)
        ensures
            r.0 == type_name_hash(name@),
    {
        ComponentId(hash_type_name(name))
    }
}

impl ServerEntityId {
    /// The server id of a server-side entity.
    pub fn from_entity(entity_id: EntityId) -> (r: ServerEntityId)
        ensures
            r.0 == entity_id,
    {
        ServerEntityId(entity_id)
    }
}

} // verus!
