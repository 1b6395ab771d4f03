//! A live inspector for an entity hierarchy: rebuilds the parent/child tree
//! from flat parent links, lays it out in a stable order, cleans type names
//! for display and picks how each attached record is rendered.

pub mod order;
pub mod entity_tree;
pub mod short_name;
pub mod inspect_generator;
pub mod inspectable;
