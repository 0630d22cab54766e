//! Entity/component storage with change tracking and replication, plus the
//! small data structures the engine is built on.

pub mod ids;
pub mod selection;
pub mod component;
pub mod replication;
pub mod world;
pub mod events;
pub mod change_tracker;
pub mod math;
pub mod indexed_container;
pub mod paletted_bitfield;
pub mod cube_array;
