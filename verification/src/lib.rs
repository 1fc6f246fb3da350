//! Core data structures of a reactive entity-component-system: generational
//! entity storage, per-entity component tables, slot pools, filters and the
//! transactional world pipeline.

pub mod errors;
pub mod keys;
pub mod entity_storage;
pub mod component;
pub mod entity_component_index;
pub mod pools;
pub mod typed_index_vec;
pub mod optimistic_list;
pub mod cause;
pub mod component_mappings;
pub mod collections;
pub mod filter;
pub mod world;
pub mod change_buffer;
pub mod laws;
